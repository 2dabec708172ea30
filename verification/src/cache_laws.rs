//! Attention that continues from its cache.
use crate::attention;
use crate::attention::{
    for_each_query_head, gated, head_norm, heads_first, project, with_mask, AttentionWeights,
};
use crate::causal_laws;
use crate::causal_laws::{
    all_finite, asked, hides, in_format, is_causal, is_masked_row, masked, raw_scores, scored,
    spread_values,
};
use crate::graph;
use crate::graph::{Dims, FloatSetting, Node, Pairwise, Projection, SameShape, Slot};
use crate::meaning;
use crate::meaning::{
    broadcasted, by_rows, clipped, formatted, joined, line, mapped, multiplied, narrowed, offset,
    place, repeated, reshaped, rotated, transposed, value, weighed, within, Arithmetic, Tensor,
    World,
};
use crate::ops::{apply, linear, narrow, pair, reshape, transpose};
use crate::pass::Step;
use crate::quantized_qwen3_5::causal_mask;
use crate::shapes;
use crate::value_shapes::matches_shapes;
use std::rc::Rc;
use vstd::prelude::*;

verus! {

/// `a` is the part of `b` from `off` on, along the dimension `dim`.
pub open spec fn part<E>(a: Tensor<E>, b: Tensor<E>, dim: int, off: int) -> bool {
    &&& a.format == b.format
    &&& 0 <= dim < a.shape.len()
    &&& a.shape.len() == b.shape.len()
    &&& a.shape == b.shape.update(dim, a.shape[dim])
    &&& 0 <= off
    &&& off + a.shape[dim] <= b.shape[dim]
    &&& forall|idx: Seq<int>| #[trigger]
        within(a.shape, idx) ==> (a.at)(idx) == (b.at)(idx.update(dim, idx[dim] + off))
}

/// An index of a part, and where it lies in the whole.
pub proof fn lemma_within_part(a: Seq<nat>, b: Seq<nat>, dim: int, off: int, idx: Seq<int>)
    requires
        0 <= dim < a.len(),
        a.len() == b.len(),
        a == b.update(dim, a[dim]),
        0 <= off,
        off + a[dim] <= b[dim],
        within(a, idx),
    ensures
        within(b, idx.update(dim, idx[dim] + off)),
{
    let to = idx.update(dim, idx[dim] + off);
    assert forall|j: int| 0 <= j < to.len() implies 0 <= #[trigger] to[j] < b[j] by {
        assert(0 <= idx[j] < a[j]);
    }
}

/// Operations on single numbers.
pub proof fn lemma_mapped<E>(a: Tensor<E>, b: Tensor<E>, dim: int, off: int, f: spec_fn(E) -> E)
    requires
        part(a, b, dim, off),
    ensures
        part(mapped(a, f), mapped(b, f), dim, off),
{
    let (l, r) = (mapped(a, f), mapped(b, f));
    assert forall|idx: Seq<int>| #[trigger] within(l.shape, idx) implies (l.at)(idx) == (r.at)(
        idx.update(dim, idx[dim] + off),
    ) by {
        lemma_within_part(a.shape, b.shape, dim, off, idx);
    }
}

/// Another format.
pub proof fn lemma_formatted<E>(
    a: Tensor<E>,
    b: Tensor<E>,
    dim: int,
    off: int,
    f: int,
    arithmetic: Arithmetic<E>,
)
    requires
        part(a, b, dim, off),
    ensures
        part(formatted(a, f, arithmetic), formatted(b, f, arithmetic), dim, off),
{
    let (l, r) = (formatted(a, f, arithmetic), formatted(b, f, arithmetic));
    assert forall|idx: Seq<int>| #[trigger] within(l.shape, idx) implies (l.at)(idx) == (r.at)(
        idx.update(dim, idx[dim] + off),
    ) by {
        lemma_within_part(a.shape, b.shape, dim, off, idx);
    }
}

/// A row of a part is a row of the whole.
pub proof fn lemma_line<E>(a: Tensor<E>, b: Tensor<E>, dim: int, off: int, idx: Seq<int>)
    requires
        part(a, b, dim, off),
        dim < a.shape.len() - 1,
        idx.len() == a.shape.len(),
        forall|j: int|
            0 <= j < idx.len() - 1 ==> 0 <= #[trigger] idx[j] < a.shape[j],
    ensures
        line(a, a.shape.len() - 1, idx) == line(
            b,
            a.shape.len() - 1,
            idx.update(dim, idx[dim] + off),
        ),
{
    let last = a.shape.len() - 1;
    let to = idx.update(dim, idx[dim] + off);
    let (x, y) = (line(a, last, idx), line(b, last, to));
    assert forall|k: int| 0 <= k < a.shape[last] implies #[trigger] x[k] == y[k] by {
        let j = idx.update(last, k);
        assert(within(a.shape, j)) by {
            assert forall|l: int| 0 <= l < j.len() implies 0 <= #[trigger] j[l] < a.shape[l] by {
                if l < last {
                    assert(0 <= idx[l] < a.shape[l]);
                }
            }
        }
        assert(j.update(dim, j[dim] + off) =~= to.update(last, k));
    }
    assert(x =~= y);
}

/// Operations on rows of another dimension.
pub proof fn lemma_by_rows<E>(
    a: Tensor<E>,
    b: Tensor<E>,
    dim: int,
    off: int,
    width: nat,
    f: spec_fn(Seq<E>) -> Seq<E>,
)
    requires
        part(a, b, dim, off),
        dim < a.shape.len() - 1,
    ensures
        part(by_rows(a, width, f), by_rows(b, width, f), dim, off),
{
    let last = a.shape.len() - 1;
    let (l, r) = (by_rows(a, width, f), by_rows(b, width, f));
    assert(l.shape =~= r.shape.update(dim, l.shape[dim]));
    assert forall|idx: Seq<int>| #[trigger] within(l.shape, idx) implies (l.at)(idx) == (r.at)(
        idx.update(dim, idx[dim] + off),
    ) by {
        lemma_within_part(l.shape, r.shape, dim, off, idx);
        assert forall|j: int| 0 <= j < idx.len() - 1 implies 0 <= #[trigger] idx[j]
            < a.shape[j] by {
            assert(0 <= idx[j] < l.shape[j]);
        }
        lemma_line(a, b, dim, off, idx);
    }
}

/// A bias added to each row.
pub proof fn lemma_biased<E>(
    a: Tensor<E>,
    b: Tensor<E>,
    c: Tensor<E>,
    off: int,
    f: spec_fn(E, E) -> E,
)
    requires
        part(a, b, 1, off),
        a.shape.len() == 3,
        c.shape == seq![a.shape[2]],
    ensures
        part(broadcasted(a, c, f), broadcasted(b, c, f), 1, off),
        broadcasted(a, c, f).shape == a.shape,
        broadcasted(b, c, f).shape == b.shape,
{
    lemma_bias_shape(a.shape, c.shape);
    lemma_bias_shape(b.shape, c.shape);
    let (l, r) = (broadcasted(a, c, f), broadcasted(b, c, f));
    assert forall|idx: Seq<int>| #[trigger] within(l.shape, idx) implies (l.at)(idx) == (r.at)(
        idx.update(1, idx[1] + off),
    ) by {
        lemma_within_part(a.shape, b.shape, 1, off, idx);
        meaning::lemma_clipped(a.shape, idx);
        meaning::lemma_clipped(b.shape, idx.update(1, idx[1] + off));
        assert(clipped(c.shape, idx) =~= clipped(c.shape, idx.update(1, idx[1] + off)));
    }
}

/// Broadcasting a bias to rows.
proof fn lemma_bias_shape(d: Seq<nat>, w: Seq<nat>)
    requires
        d.len() == 3,
        w == seq![d[2]],
    ensures
        graph::broadcast(d, w) == Some(d),
{
    assert(forall|k: int| 0 <= k < 3 ==> graph::aligned(d, 3, k) == d[k]);
    assert(graph::aligned(w, 3, 0) == 1 && graph::aligned(w, 3, 1) == 1);
    assert(graph::aligned(w, 3, 2) == d[2]);
    assert(graph::broadcast(d, w)->0 =~= d);
}

/// Operations on two tensors of one shape.
proof fn lemma_broadcasted<E>(
    a: Tensor<E>,
    b: Tensor<E>,
    c: Tensor<E>,
    d: Tensor<E>,
    off: int,
    f: spec_fn(E, E) -> E,
)
    requires
        part(a, b, 1, off),
        part(c, d, 1, off),
        a.shape.len() == 4,
        c.shape == a.shape,
        d.shape == b.shape,
    ensures
        part(broadcasted(a, c, f), broadcasted(b, d, f), 1, off),
        broadcasted(a, c, f).shape == a.shape,
        broadcasted(b, d, f).shape == b.shape,
{
    shapes::lemma_broadcast4(a.shape, a.shape);
    shapes::lemma_broadcast4(b.shape, b.shape);
    let (l, r) = (broadcasted(a, c, f), broadcasted(b, d, f));
    assert forall|idx: Seq<int>| #[trigger] within(l.shape, idx) implies (l.at)(idx) == (r.at)(
        idx.update(1, idx[1] + off),
    ) by {
        lemma_within_part(a.shape, b.shape, 1, off, idx);
        meaning::lemma_clipped(a.shape, idx);
        meaning::lemma_clipped(b.shape, idx.update(1, idx[1] + off));
    }
}

/// A part of another dimension.
pub proof fn lemma_narrowed<E>(
    a: Tensor<E>,
    b: Tensor<E>,
    dim: int,
    off: int,
    other: int,
    start: int,
    len: nat,
)
    requires
        part(a, b, dim, off),
        0 <= other < a.shape.len(),
        other != dim,
        0 <= start,
        start + len <= a.shape[other],
    ensures
        part(narrowed(a, other, start, len), narrowed(b, other, start, len), dim, off),
{
    let (l, r) = (narrowed(a, other, start, len), narrowed(b, other, start, len));
    assert(l.shape =~= r.shape.update(dim, l.shape[dim]));
    assert forall|idx: Seq<int>| #[trigger] within(l.shape, idx) implies (l.at)(idx) == (r.at)(
        idx.update(dim, idx[dim] + off),
    ) by {
        lemma_within_part(l.shape, r.shape, dim, off, idx);
        let j = idx.update(other, idx[other] + start);
        assert(within(a.shape, j));
        let to = idx.update(dim, idx[dim] + off);
        assert(j.update(dim, j[dim] + off) =~= to.update(other, to[other] + start));
    }
}

/// Positions and heads that change places.
pub proof fn lemma_transposed<E>(a: Tensor<E>, b: Tensor<E>, dim: int, off: int)
    requires
        part(a, b, dim, off),
        a.shape.len() >= 3,
        dim == 1 || dim == 2,
    ensures
        part(transposed(a, 1, 2), transposed(b, 1, 2), 3 - dim, off),
{
    let (l, r) = (transposed(a, 1, 2), transposed(b, 1, 2));
    let to = 3 - dim;
    assert(l.shape =~= r.shape.update(to, l.shape[to]));
    assert forall|idx: Seq<int>| #[trigger] within(l.shape, idx) implies (l.at)(idx) == (r.at)(
        idx.update(to, idx[to] + off),
    ) by {
        lemma_within_part(l.shape, r.shape, to, off, idx);
        let j = idx.update(1, idx[2]).update(2, idx[1]);
        assert(within(a.shape, j));
        let k = idx.update(to, idx[to] + off);
        assert(j.update(dim, j[dim] + off) =~= k.update(1, k[2]).update(2, k[1]));
    }
}

/// The last of three dimensions split into two.
pub proof fn lemma_split<E>(
    a: Tensor<E>,
    c: Tensor<E>,
    b: nat,
    s: nat,
    n: nat,
    h: nat,
    d: nat,
    off: int,
)
    requires
        part(a, c, 1, off),
        a.shape == seq![b, s, h * d],
        c.shape == seq![b, n, h * d],
    ensures
        part(reshaped(a, seq![b, s, h, d]), reshaped(c, seq![b, n, h, d]), 1, off),
{
    let (l, r) = (reshaped(a, seq![b, s, h, d]), reshaped(c, seq![b, n, h, d]));
    assert(l.shape =~= r.shape.update(1, s));
    assert forall|idx: Seq<int>| #[trigger] within(l.shape, idx) implies (l.at)(idx) == (r.at)(
        idx.update(1, idx[1] + off),
    ) by {
        lemma_within_part(l.shape, r.shape, 1, off, idx);
        let to = idx.update(1, idx[1] + off);
        lemma_split_place(b, s, h, d, idx);
        lemma_split_place(b, n, h, d, to);
        let from = seq![idx[0], idx[1], idx[2] * d + idx[3]];
        assert(from.update(1, from[1] + off) =~= seq![to[0], to[1], to[2] * d + to[3]]);
    }
}

/// Where an element of split rows comes from.
pub proof fn lemma_split_place(b: nat, s: nat, h: nat, d: nat, idx: Seq<int>)
    requires
        within(seq![b, s, h, d], idx),
    ensures
        ({
            let from = seq![idx[0], idx[1], idx[2] * d + idx[3]];
            &&& within(seq![b, s, h * d], from)
            &&& place(seq![b, s, h * d], offset(seq![b, s, h, d], idx)) == from
        }),
{
    causal_laws::lemma_offset_split(b, s, h, d, idx);
    let full = seq![b, s, h, d];
    assert(0 <= idx[0] < full[0] && 0 <= idx[1] < full[1] && 0 <= idx[2] < full[2] && 0 <= idx[3]
        < full[3]);
    let (i2, i3) = (idx[2], idx[3]);
    assert(0 <= i2 * d + i3 < h * d) by (nonlinear_arith)
        requires
            0 <= i2 < h,
            0 <= i3 < d,
    ;
    let from = seq![idx[0], idx[1], idx[2] * d + idx[3]];
    assert(within(seq![b, s, h * d], from));
    causal_laws::lemma_place(seq![b, s, h * d], from);
}

/// The last two of four dimensions joined.
proof fn lemma_merged<E>(
    a: Tensor<E>,
    c: Tensor<E>,
    b: nat,
    s: nat,
    n: nat,
    h: nat,
    d: nat,
    off: int,
)
    requires
        part(a, c, 1, off),
        a.shape == seq![b, s, h, d],
        c.shape == seq![b, n, h, d],
    ensures
        part(reshaped(a, seq![b, s, h * d]), reshaped(c, seq![b, n, h * d]), 1, off),
{
    let (l, r) = (reshaped(a, seq![b, s, h * d]), reshaped(c, seq![b, n, h * d]));
    assert(l.shape =~= r.shape.update(1, s));
    assert forall|idx: Seq<int>| #[trigger] within(l.shape, idx) implies (l.at)(idx) == (r.at)(
        idx.update(1, idx[1] + off),
    ) by {
        lemma_within_part(l.shape, r.shape, 1, off, idx);
        let to = idx.update(1, idx[1] + off);
        lemma_merged_place(b, s, h, d, idx);
        lemma_merged_place(b, n, h, d, to);
        let k = d as int;
        let from = seq![idx[0], idx[1], idx[2] / k, idx[2] % k];
        assert(from.update(1, from[1] + off) =~= seq![to[0], to[1], to[2] / k, to[2] % k]);
    }
}

/// Where an element of joined rows comes from.
pub proof fn lemma_merged_place(b: nat, s: nat, h: nat, d: nat, idx: Seq<int>)
    requires
        within(seq![b, s, h * d], idx),
    ensures
        ({
            let from = seq![idx[0], idx[1], idx[2] / d as int, idx[2] % d as int];
            &&& within(seq![b, s, h, d], from)
            &&& place(seq![b, s, h, d], offset(seq![b, s, h * d], idx)) == from
        }),
{
    let three = seq![b, s, h * d];
    assert(0 <= idx[0] < three[0] && 0 <= idx[1] < three[1] && 0 <= idx[2] < three[2]);
    let (k, n) = (idx[2], d as int);
    assert(n > 0 && 0 <= k / n < h && 0 <= k % n < n && (k / n) * n + k % n == k)
        by (nonlinear_arith)
        requires
            0 <= k < h * n,
            n >= 0,
    ;
    let from = seq![idx[0], idx[1], k / n, k % n];
    assert(within(seq![b, s, h, d], from));
    causal_laws::lemma_offset_split(b, s, h, d, from);
    assert(seq![from[0], from[1], from[2] * d + from[3]] =~= idx);
    causal_laws::lemma_place(seq![b, s, h, d], from);
}

/// The rotary embedding of a part uses the part of the tables.
pub proof fn lemma_rotated<E>(
    a: Tensor<E>,
    b: Tensor<E>,
    ca: Tensor<E>,
    cb: Tensor<E>,
    sa: Tensor<E>,
    sb: Tensor<E>,
    off: int,
    arithmetic: Arithmetic<E>,
)
    requires
        part(a, b, 2, off),
        a.shape.len() == 4,
        part(ca, cb, 0, off),
        part(sa, sb, 0, off),
        ca.shape.len() == 2,
        sa.shape.len() == 2,
        ca.shape[0] == a.shape[2],
        sa.shape[0] == a.shape[2],
    ensures
        part(rotated(a, ca, sa, arithmetic), rotated(b, cb, sb, arithmetic), 2, off),
{
    let (l, r) = (rotated(a, ca, sa, arithmetic), rotated(b, cb, sb, arithmetic));
    assert forall|idx: Seq<int>| #[trigger] within(l.shape, idx) implies (l.at)(idx) == (r.at)(
        idx.update(2, idx[2] + off),
    ) by {
        lemma_within_part(a.shape, b.shape, 2, off, idx);
        lemma_line(a, b, 2, off, idx);
        let (p, q) = (seq![idx[2], 0], seq![idx[2] + off, 0]);
        assert(0 <= idx[2] < a.shape[2]);
        assert(p.update(0, p[0] + off) =~= q);
        lemma_line(ca, cb, 0, off, p);
        lemma_line(sa, sb, 0, off, p);
    }
}

/// Heads that are repeated.
proof fn lemma_repeated<E>(a: Tensor<E>, b: Tensor<E>, times: nat, off: int)
    requires
        part(a, b, 2, off),
        a.shape.len() == 4,
    ensures
        part(repeated(a, times), repeated(b, times), 2, off),
{
    let (l, r) = (repeated(a, times), repeated(b, times));
    assert(l.shape =~= r.shape.update(2, l.shape[2]));
    assert forall|idx: Seq<int>| #[trigger] within(l.shape, idx) implies (l.at)(idx) == (r.at)(
        idx.update(2, idx[2] + off),
    ) by {
        lemma_within_part(l.shape, r.shape, 2, off, idx);
        let (k, n, h) = (idx[1], times as int, a.shape[1] as int);
        assert(0 <= idx[1] < l.shape[1]);
        assert(0 <= k / n < h) by (nonlinear_arith)
            requires
                0 <= k < h * n,
                n >= 0,
                h >= 0,
        ;
        let j = idx.update(1, k / n);
        assert(within(a.shape, j));
        let to = idx.update(2, idx[2] + off);
        assert(j.update(2, j[2] + off) =~= to.update(1, to[1] / n));
    }
}

/// The parts, one behind the other, are the whole.
pub proof fn lemma_joined<E>(a: Tensor<E>, b: Tensor<E>, c: Tensor<E>, dim: int)
    requires
        c.regular(),
        part(a, c, dim, 0),
        part(b, c, dim, a.shape[dim] as int),
        a.shape[dim] + b.shape[dim] == c.shape[dim],
    ensures
        joined(a, b, dim) == c,
{
    let l = joined(a, b, dim);
    assert(l.shape =~= c.shape);
    assert forall|idx: Seq<int>| #[trigger] within(l.shape, idx) implies (l.at)(idx) == (c.at)(
        idx,
    ) by {
        if idx[dim] < a.shape[dim] {
            assert(within(a.shape, idx));
            assert(idx.update(dim, idx[dim] + 0) =~= idx);
        } else {
            let j = idx.update(dim, idx[dim] - a.shape[dim]);
            assert(within(b.shape, j));
            assert(j.update(dim, j[dim] + a.shape[dim]) =~= idx);
        }
    }
    meaning::lemma_equal(l, c);
}

/// What the arithmetic has to grant for hidden positions to be as good as absent:
///
/// * masked scores are without effect, and `now` is neutral;
/// * softmax gives `nil` for a hidden score behind a row, and to the others what they get without it;
/// * a number that is weighed with `nil` can be left out of a sum of products.
pub open spec fn omits<E>(
    a: Arithmetic<E>,
    later: E,
    now: E,
    finite: spec_fn(E) -> bool,
    no: E,
    nil: E,
) -> bool {
    &&& hides(a, later, now, finite, no, nil)
    &&& forall|e: E| finite(e) ==> #[trigger] (a.pair)(Pairwise::BroadcastAdd, e, now) == e
    &&& forall|row: Seq<E>|
        is_masked_row(row, finite, no) ==> #[trigger] (a.softmax)(row.push(no)) == (a.softmax)(
            row,
        ).push(nil)
    &&& forall|row: Seq<E>| (#[trigger] (a.softmax)(row)).len() == row.len()
    &&& forall|weights: Seq<E>, x: Seq<E>, e: E|
        weights.len() == x.len() && finite(e) ==> #[trigger] (a.dot)(
            weights.push(nil),
            x.push(e),
        ) == (a.dot)(weights, x)
}

/// The first `len` scores that the position of `idx` sees, `past` positions having come before it,
/// with `no` for later positions.
pub open spec fn seen_row<E>(s: Tensor<E>, no: E, idx: Seq<int>, len: nat, past: nat) -> Seq<E> {
    Seq::new(
        len,
        |q: int|
            if q > past + idx[2] {
                no
            } else {
                (s.at)(idx.update(3, q))
            },
    )
}

/// Rows of masked scores.
pub proof fn lemma_masked_row<E>(
    s: Tensor<E>,
    mask: Tensor<E>,
    past: nat,
    a: Arithmetic<E>,
    later: E,
    now: E,
    finite: spec_fn(E) -> bool,
    no: E,
    nil: E,
    idx: Seq<int>,
)
    requires
        s.shape.len() == 4,
        is_causal(mask, s.shape, past, later, now),
        all_finite(s, finite),
        omits(a, later, now, finite, no, nil),
        within(s.shape, idx),
    ensures
        masked(s, mask, a).shape == s.shape,
        line(masked(s, mask, a), 3, idx) == seen_row(s, no, idx, s.shape[3], past),
{
    let d = s.shape;
    shapes::lemma_broadcast4(d, mask.shape);
    let (x, y) = (line(masked(s, mask, a), 3, idx), seen_row(s, no, idx, d[3], past));
    assert(0 <= idx[2] < d[2] && 0 <= idx[0] < d[0] && 0 <= idx[1] < d[1]);
    assert forall|k: int| 0 <= k < d[3] implies #[trigger] x[k] == y[k] by {
        let j = idx.update(3, k);
        assert(within(d, j));
        meaning::lemma_clipped(d, j);
        let c = clipped(mask.shape, j);
        assert(within(mask.shape, c));
        assert(c[2] == idx[2] && c[3] == k);
        let e = (s.at)(j);
        assert(finite(e));
        assert(x[k] == (a.pair)(Pairwise::BroadcastAdd, e, (mask.at)(c)));
        assert((a.pair)(Pairwise::BroadcastAdd, e, later) == no);
        assert((a.pair)(Pairwise::BroadcastAdd, e, now) == e);
    }
    assert(x =~= y);
}

/// The same number several times.
pub open spec fn repeat<E>(e: E, k: nat) -> Seq<E> {
    Seq::new(k, |i: int| e)
}

/// Hidden scores behind a row.
proof fn lemma_hidden_tail<E>(
    a: Arithmetic<E>,
    later: E,
    now: E,
    finite: spec_fn(E) -> bool,
    no: E,
    nil: E,
    row: Seq<E>,
    k: nat,
)
    requires
        omits(a, later, now, finite, no, nil),
        is_masked_row(row, finite, no),
    ensures
        (a.softmax)(row + repeat(no, k)) == (a.softmax)(row) + repeat(nil, k),
        is_masked_row(row + repeat(no, k), finite, no),
    decreases k,
{
    if k == 0 {
        assert(row + repeat(no, 0) =~= row);
        assert((a.softmax)(row) + repeat(nil, 0) =~= (a.softmax)(row));
    } else {
        let j = (k - 1) as nat;
        lemma_hidden_tail(a, later, now, finite, no, nil, row, j);
        let before = row + repeat(no, j);
        assert(before.push(no) =~= row + repeat(no, k));
        assert(((a.softmax)(row) + repeat(nil, j)).push(nil) =~= (a.softmax)(row) + repeat(nil, k));
        assert((a.softmax)(before.push(no)) == (a.softmax)(before).push(nil));
        let w = choose|w: int| 0 <= w < row.len() && finite(#[trigger] row[w]);
        assert(finite((row + repeat(no, k))[w]));
    }
}

/// Numbers that are weighed with `nil` behind a sum of products.
proof fn lemma_dot_tail<E>(
    a: Arithmetic<E>,
    later: E,
    now: E,
    finite: spec_fn(E) -> bool,
    no: E,
    nil: E,
    weights: Seq<E>,
    x: Seq<E>,
    y: Seq<E>,
)
    requires
        omits(a, later, now, finite, no, nil),
        weights.len() == x.len(),
        forall|j: int| 0 <= j < y.len() ==> finite(#[trigger] y[j]),
    ensures
        (a.dot)(weights + repeat(nil, y.len()), x + y) == (a.dot)(weights, x),
    decreases y.len(),
{
    if y.len() == 0 {
        assert(weights + repeat(nil, 0) =~= weights);
        assert(x + y =~= x);
    } else {
        let z = y.drop_last();
        lemma_dot_tail(a, later, now, finite, no, nil, weights, x, z);
        let u = weights + repeat(nil, z.len());
        assert(u.push(nil) =~= weights + repeat(nil, y.len()));
        assert((x + z).push(y.last()) =~= x + y);
        assert(finite(y[y.len() - 1]));
        assert((a.dot)(u.push(nil), (x + z).push(y.last())) == (a.dot)(u, x + z));
    }
}

/// A row of weights, as the softmax of the row of scores.
proof fn lemma_weighed_row<E>(
    t: Tensor<E>,
    a: Arithmetic<E>,
    later: E,
    now: E,
    finite: spec_fn(E) -> bool,
    no: E,
    nil: E,
    idx: Seq<int>,
)
    requires
        t.shape.len() == 4,
        omits(a, later, now, finite, no, nil),
        idx.len() == 4,
        forall|j: int| 0 <= j < 3 ==> 0 <= #[trigger] idx[j] < t.shape[j],
    ensures
        line(weighed(t, a), 3, idx) == (a.softmax)(line(t, 3, idx)),
{
    let (x, y) = (line(weighed(t, a), 3, idx), (a.softmax)(line(t, 3, idx)));
    assert(y.len() == line(t, 3, idx).len());
    assert forall|k: int| 0 <= k < t.shape[3] implies #[trigger] x[k] == y[k] by {
        let j = idx.update(3, k);
        assert(within(t.shape, j)) by {
            assert forall|l: int| 0 <= l < 4 implies 0 <= #[trigger] j[l] < t.shape[l] by {
                if l < 3 {
                    assert(0 <= idx[l] < t.shape[l]);
                }
            }
        }
        assert(line(t, 3, j) =~= line(t, 3, idx)) by {
            assert forall|l: int| 0 <= l < t.shape[3] implies #[trigger] line(t, 3, j)[l] == line(
                t,
                3,
                idx,
            )[l] by {
                assert(j.update(3, l) =~= idx.update(3, l));
            }
        }
    }
    assert(x =~= y);
}

/// What the first positions attend to, with and without later ones.
proof fn lemma_first_attended<E>(
    t1: Tensor<E>,
    s: Tensor<E>,
    t: Tensor<E>,
    v1: Tensor<E>,
    v: Tensor<E>,
    m: nat,
    n: nat,
    a: Arithmetic<E>,
    later: E,
    now: E,
    finite: spec_fn(E) -> bool,
    no: E,
    nil: E,
    d: Seq<nat>,
)
    requires
        d.len() == 4,
        d[2] == n,
        0 < m <= n,
        s.shape == d.update(3, n),
        t.shape == s.shape,
        t.format == t1.format,
        t1.shape == d.update(2, m).update(3, m),
        v.shape == d,
        part(v1, v, 2, 0),
        v1.shape[2] == m,
        all_finite(s, finite),
        all_finite(v, finite),
        omits(a, later, now, finite, no, nil),
        // The rows are what the positions see.
        forall|idx: Seq<int>| #[trigger]
            within(s.shape, idx) ==> line(t, 3, idx) == seen_row(s, no, idx, n, 0),
        forall|idx: Seq<int>| #[trigger]
            within(t1.shape, idx) ==> line(t1, 3, idx) == seen_row(s, no, idx, m, 0),
    ensures
        part(multiplied(weighed(t1, a), v1, a), multiplied(weighed(t, a), v, a), 2, 0),
        multiplied(weighed(t, a), v, a).shape == d,
        multiplied(weighed(t1, a), v1, a).shape == d.update(2, m),
{
    let (l, r) = (multiplied(weighed(t1, a), v1, a), multiplied(weighed(t, a), v, a));
    assert(l.shape =~= d.update(2, m));
    assert(r.shape =~= d);
    let k = (n - m) as nat;
    assert forall|idx: Seq<int>| #[trigger] within(l.shape, idx) implies (l.at)(idx) == (r.at)(
        idx.update(2, idx[2] + 0),
    ) by {
        assert(idx.update(2, idx[2] + 0) =~= idx);
        assert(0 <= idx[0] < d[0] && 0 <= idx[1] < d[1] && 0 <= idx[2] < l.shape[2] && 0 <= idx[3]
            < d[3]);
        let j = idx.update(3, 0);
        assert(within(t1.shape, j));
        assert(within(s.shape, j));
        let (short, long) = (seen_row(s, no, j, m, 0), seen_row(s, no, j, n, 0));
        assert(long =~= short + repeat(no, k));
        assert forall|q: int| 0 <= q < m implies finite(#[trigger] short[q]) || short[q] == no by {
            assert(within(s.shape, j.update(3, q)));
        }
        assert(within(s.shape, j.update(3, idx[2])));
        assert(finite(short[idx[2]]));
        assert(is_masked_row(short, finite, no));
        lemma_hidden_tail(a, later, now, finite, no, nil, short, k);
        lemma_weighed_row(t1, a, later, now, finite, no, nil, j);
        lemma_weighed_row(t, a, later, now, finite, no, nil, j);
        let (u1, u) = (line(weighed(t1, a), 3, idx), line(weighed(t, a), 3, idx));
        lemma_same_line(weighed(t1, a), idx, j);
        lemma_same_line(weighed(t, a), idx, j);
        assert(u == u1 + repeat(nil, k));
        let (x1, x) = (line(v1, 2, idx), line(v, 2, idx));
        let y = x.skip(m as int);
        assert(x =~= x1 + y) by {
            assert forall|q: int| 0 <= q < m implies #[trigger] x[q] == x1[q] by {
                let i = idx.update(2, q);
                assert(within(v1.shape, i));
                assert(i.update(2, i[2] + 0) =~= i);
            }
        }
        assert forall|q: int| 0 <= q < y.len() implies finite(#[trigger] y[q]) by {
            assert(within(d, idx.update(2, m + q)));
        }
        lemma_dot_tail(a, later, now, finite, no, nil, u1, x1, y);
    }
}

/// The row through an index does not depend on its last entry.
proof fn lemma_same_line<E>(t: Tensor<E>, idx: Seq<int>, j: Seq<int>)
    requires
        t.shape.len() == 4,
        idx.len() == 4,
        j == idx.update(3, j[3]),
        j.len() == 4,
    ensures
        line(t, 3, idx) == line(t, 3, j),
{
    let (x, y) = (line(t, 3, idx), line(t, 3, j));
    assert forall|k: int| 0 <= k < t.shape[3] implies #[trigger] x[k] == y[k] by {
        assert(idx.update(3, k) =~= j.update(3, k));
    }
    assert(x =~= y);
}

/// What the last positions attend to, by themselves and behind the others.
pub proof fn lemma_last_attended<E>(
    t2: Tensor<E>,
    s: Tensor<E>,
    t: Tensor<E>,
    v: Tensor<E>,
    m: nat,
    n: nat,
    a: Arithmetic<E>,
    no: E,
    d: Seq<nat>,
)
    requires
        d.len() == 4,
        d[2] == n,
        m <= n,
        s.shape == d.update(3, n),
        t.shape == s.shape,
        v.shape == d,
        t2.shape == d.update(2, (n - m) as nat).update(3, n),
        t2.format == t.format,
        forall|idx: Seq<int>| #[trigger]
            within(s.shape, idx) ==> line(t, 3, idx) == seen_row(s, no, idx, n, 0),
        forall|idx: Seq<int>| #[trigger]
            within(t2.shape, idx) ==> line(t2, 3, idx) == seen_row(
                s,
                no,
                idx.update(2, idx[2] + m),
                n,
                0,
            ),
    ensures
        part(multiplied(weighed(t2, a), v, a), multiplied(weighed(t, a), v, a), 2, m as int),
        multiplied(weighed(t2, a), v, a).shape == d.update(2, (n - m) as nat),
{
    let (l, r) = (multiplied(weighed(t2, a), v, a), multiplied(weighed(t, a), v, a));
    assert(l.shape =~= d.update(2, (n - m) as nat));
    assert(r.shape =~= d);
    assert forall|idx: Seq<int>| #[trigger] within(l.shape, idx) implies (l.at)(idx) == (r.at)(
        idx.update(2, idx[2] + m),
    ) by {
        let to = idx.update(2, idx[2] + m);
        lemma_within_part(l.shape, r.shape, 2, m as int, idx);
        assert(0 <= idx[0] < d[0] && 0 <= idx[1] < d[1] && 0 <= idx[2] < l.shape[2] && 0 <= idx[3]
            < d[3]);
        let (x, y) = (line(weighed(t2, a), 3, idx), line(weighed(t, a), 3, to));
        assert forall|k: int| 0 <= k < n implies #[trigger] x[k] == y[k] by {
            let (i, j) = (idx.update(3, k), to.update(3, k));
            assert(within(t2.shape, i));
            assert(within(s.shape, j));
            assert(i.update(2, i[2] + m) =~= j);
        }
        assert(x =~= y);
        assert(line(v, 2, idx) =~= line(v, 2, to)) by {
            assert forall|k: int| 0 <= k < d[2] implies #[trigger] line(v, 2, idx)[k] == line(
                v,
                2,
                to,
            )[k] by {
                assert(idx.update(2, k) =~= to.update(2, k));
            }
        }
    }
}

/// The rows of the last scores without a mask: there is nothing to hide from a single position.
pub proof fn lemma_last_rows<E>(
    s2: Tensor<E>,
    s: Tensor<E>,
    m: nat,
    n: nat,
    no: E,
    d: Seq<nat>,
    idx: Seq<int>,
)
    requires
        d.len() == 4,
        d[2] == n,
        n == m + 1,
        s.shape == d.update(3, n),
        s2.shape == d.update(2, 1).update(3, n),
        part(s2, s, 2, m as int),
        within(s2.shape, idx),
    ensures
        line(s2, 3, idx) == seen_row(s, no, idx.update(2, idx[2] + m), n, 0),
{
    let to = idx.update(2, idx[2] + m);
    let (x, y) = (line(s2, 3, idx), seen_row(s, no, to, n, 0));
    assert(0 <= idx[2] < s2.shape[2]);
    assert forall|q: int| 0 <= q < n implies #[trigger] x[q] == y[q] by {
        let p = idx.update(3, q);
        assert(within(s2.shape, p));
        assert(p.update(2, p[2] + m) =~= to.update(3, q));
    }
    assert(x =~= y);
}

/// The scores of the parts are parts of the scores: those of all keys for some queries.
pub proof fn lemma_some_scored<E>(
    q2: Tensor<E>,
    q: Tensor<E>,
    k: Tensor<E>,
    width: usize,
    off: int,
    a: Arithmetic<E>,
    d: Seq<nat>,
)
    requires
        d.len() == 4,
        q.shape == d,
        k.shape == d,
        part(q2, q, 2, off),
    ensures
        part(scored(q2, k, width, a), scored(q, k, width, a), 2, off),
        scored(q, k, width, a).shape == d.update(3, d[2]),
        scored(q2, k, width, a).shape == d.update(2, q2.shape[2]).update(3, d[2]),
{
    let kt = transposed(k, 2, 3);
    let (l, r) = (scored(q2, k, width, a), scored(q, k, width, a));
    assert(l.shape =~= d.update(2, q2.shape[2]).update(3, d[2]));
    assert(r.shape =~= d.update(3, d[2]));
    assert(l.shape =~= r.shape.update(2, l.shape[2]));
    assert forall|idx: Seq<int>| #[trigger] within(l.shape, idx) implies (l.at)(idx) == (r.at)(
        idx.update(2, idx[2] + off),
    ) by {
        let to = idx.update(2, idx[2] + off);
        lemma_within_part(l.shape, r.shape, 2, off, idx);
        assert forall|j: int| 0 <= j < idx.len() - 1 implies 0 <= #[trigger] idx[j]
            < q2.shape[j] by {
            assert(0 <= idx[j] < l.shape[j]);
        }
        lemma_line(q2, q, 2, off, idx);
        assert(line(kt, 2, idx) =~= line(kt, 2, to)) by {
            assert forall|j: int| 0 <= j < kt.shape[2] implies #[trigger] line(kt, 2, idx)[j]
                == line(kt, 2, to)[j] by {
                assert(idx.update(2, j) =~= to.update(2, j));
            }
        }
    }
}

/// The scores of the first keys for the first queries.
proof fn lemma_first_scored<E>(
    q1: Tensor<E>,
    q: Tensor<E>,
    k1: Tensor<E>,
    k: Tensor<E>,
    width: usize,
    m: nat,
    a: Arithmetic<E>,
    d: Seq<nat>,
    idx: Seq<int>,
)
    requires
        d.len() == 4,
        q.shape == d,
        k.shape == d,
        part(q1, q, 2, 0),
        part(k1, k, 2, 0),
        q1.shape[2] == m,
        k1.shape[2] == m,
        within(d.update(2, m).update(3, m), idx),
    ensures
        (scored(q1, k1, width, a).at)(idx) == (scored(q, k, width, a).at)(idx),
        scored(q1, k1, width, a).shape == d.update(2, m).update(3, m),
{
    let (t1, t) = (transposed(k1, 2, 3), transposed(k, 2, 3));
    assert(scored(q1, k1, width, a).shape =~= d.update(2, m).update(3, m));
    assert(scored(q, k, width, a).shape =~= d.update(3, d[2]));
    assert(0 <= idx[0] < d[0] && 0 <= idx[1] < d[1] && 0 <= idx[2] < m && 0 <= idx[3] < m);
    assert(within(d.update(3, d[2]), idx));
    lemma_line(q1, q, 2, 0, idx);
    assert(idx.update(2, idx[2] + 0) =~= idx);
    let (x, y) = (line(t1, 2, idx), line(t, 2, idx));
    assert forall|j: int| 0 <= j < d[3] implies #[trigger] x[j] == y[j] by {
        let i = idx.update(2, j);
        assert(within(t1.shape, i));
        assert(within(t.shape, i));
        let from = i.update(2, i[3]).update(3, i[2]);
        assert(within(k1.shape, from));
        assert(from.update(2, from[2] + 0) =~= from);
    }
    assert(x =~= y);
}

/// The worlds have the same weights and tables.
pub open spec fn same_model<E>(e1: World<E>, e2: World<E>) -> bool {
    &&& e1.arithmetic == e2.arithmetic
    &&& forall|slot: Slot|
        !is_kept(slot) ==> #[trigger] (e1.leaf)(slot) == (e2.leaf)(slot)
}

/// The slots that differ from pass to pass.
pub open spec fn is_kept(slot: Slot) -> bool {
    match slot {
        Slot::Input | Slot::Mask => true,
        Slot::CachedKeys | Slot::CachedValues => true,
        Slot::ConvState | Slot::RecurrentState => true,
        _ => false,
    }
}

/// One formula computes the part, of `len` indices from `off` on, of what another one computes, which
/// has the shape `d`.
pub open spec fn takes<E>(
    n1: Rc<Node>,
    e1: World<E>,
    n: Rc<Node>,
    e: World<E>,
    d: Seq<nat>,
    dim: int,
    off: int,
    len: nat,
) -> bool {
    &&& value(&n, e).shape == d
    &&& value(&n1, e1).shape == d.update(dim, len)
    &&& part(value(&n1, e1), value(&n, e), dim, off)
}

/// A linear map, with or without a bias.
pub proof fn lemma_takes_project<E>(
    map: Projection,
    bias: Slot,
    biased: bool,
    x: Rc<Node>,
    e1: World<E>,
    e: World<E>,
    b: nat,
    n: nat,
    from: nat,
    to: nat,
    off: int,
    len: nat,
)
    requires
        same_model(e1, e),
        takes(x, e1, x, e, seq![b, n, from], 1, off, len),
        (e.arithmetic.width)(map) == to,
        bias == Slot::QueryBias || bias == Slot::KeyBias || bias == Slot::ValueBias,
        biased ==> (e.leaf)(bias).shape == seq![to],
    ensures
        takes(
            project(map, bias, biased, &x),
            e1,
            project(map, bias, biased, &x),
            e,
            seq![b, n, to],
            1,
            off,
            len,
        ),
{
    broadcast use meaning::group_value;

    let a = e.arithmetic;
    let (x1, x0) = (value(&x, e1), value(&x, e));
    let f = |row: Seq<E>| (a.linear)(map, row);
    lemma_by_rows(x1, x0, 1, off, to, f);
    let (y1, y0) = (by_rows(x1, to, f), by_rows(x0, to, f));
    assert(y0.shape =~= seq![b, n, to]);
    assert(y1.shape =~= seq![b, n, to].update(1, len));
    if biased {
        let add = |p: E, q: E| (a.pair)(Pairwise::BroadcastAdd, p, q);
        lemma_biased(y1, y0, (e.leaf)(bias), off, add);
    }
}

/// The last dimension split into heads.
pub proof fn lemma_takes_heads<E>(
    x: Rc<Node>,
    e1: World<E>,
    e: World<E>,
    b: usize,
    s: usize,
    n: usize,
    h: usize,
    d: usize,
    off: int,
)
    requires
        takes(x, e1, x, e, seq![b as nat, n as nat, (h * d) as nat], 1, off, s as nat),
    ensures
        takes(
            reshape(&x, Dims::Four(b, s, h, d)),
            e1,
            reshape(&x, Dims::Four(b, n, h, d)),
            e,
            seq![b as nat, n as nat, h as nat, d as nat],
            1,
            off,
            s as nat,
        ),
{
    broadcast use meaning::group_value;

    let (x1, x0) = (value(&x, e1), value(&x, e));
    assert(x1.shape =~= seq![b as nat, s as nat, (h * d) as nat]);
    lemma_split(x1, x0, b as nat, s as nat, n as nat, h as nat, d as nat, off);
    assert(seq![b as nat, n as nat, h as nat, d as nat].update(1, s as nat) =~= seq![
        b as nat,
        s as nat,
        h as nat,
        d as nat,
    ]);
}

/// Positions and heads that change places.
pub proof fn lemma_takes_transpose<E>(
    x1: Rc<Node>,
    e1: World<E>,
    x: Rc<Node>,
    e: World<E>,
    d: Seq<nat>,
    dim: int,
    off: int,
    len: nat,
)
    requires
        d.len() == 4,
        dim == 1 || dim == 2,
        takes(x1, e1, x, e, d, dim, off, len),
    ensures
        takes(
            transpose(&x1, 1, 2),
            e1,
            transpose(&x, 1, 2),
            e,
            seq![d[0], d[2], d[1], d[3]],
            3 - dim,
            off,
            len,
        ),
{
    broadcast use meaning::group_value;

    lemma_transposed(value(&x1, e1), value(&x, e), dim, off);
    assert(d.update(1, d[2]).update(2, d[1]) =~= seq![d[0], d[2], d[1], d[3]]);
    let s = d.update(dim, len);
    assert(s.update(1, s[2]).update(2, s[1]) =~= seq![d[0], d[2], d[1], d[3]].update(
        3 - dim,
        len,
    ));
}

/// The norm of each head.
proof fn lemma_takes_norm<E>(
    x1: Rc<Node>,
    e1: World<E>,
    x: Rc<Node>,
    e: World<E>,
    norm: Slot,
    normed_heads: bool,
    eps: FloatSetting,
    dims1: Dims,
    dims: Dims,
    d: Seq<nat>,
    dim: int,
    off: int,
    len: nat,
)
    requires
        same_model(e1, e),
        norm == Slot::QueryNorm || norm == Slot::KeyNorm,
        d.len() == 4,
        0 <= dim < 3,
        takes(x1, e1, x, e, d, dim, off, len),
        dims1 is Four,
        dims is Four,
        dims1.filled(0) == Some(d.update(dim, len)),
        dims.filled(0) == Some(d),
    ensures
        takes(
            head_norm(&x1, norm, normed_heads, eps, dims1),
            e1,
            head_norm(&x, norm, normed_heads, eps, dims),
            e,
            d,
            dim,
            off,
            len,
        ),
{
    broadcast use meaning::group_value;

    if normed_heads {
        let a = e.arithmetic;
        let (y1, y) = (value(&x1, e1), value(&x, e));
        let weight = (e.leaf)(norm);
        causal_laws::lemma_normed_flat(y1, weight, eps, a);
        causal_laws::lemma_normed_flat(y, weight, eps, a);
        let w = line(weight, 0, seq![0]);
        let f = |row: Seq<E>| (a.rms_norm)(eps, w, row);
        lemma_by_rows(y1, y, dim, off, d[3], f);
        assert(d.update(3, d[3]) =~= d);
        assert(y1.shape.update(3, d[3]) =~= y1.shape);
    }
}

/// The rotary embedding.
proof fn lemma_takes_rotated<E>(
    x1: Rc<Node>,
    like1: Rc<Node>,
    step1: Step,
    e1: World<E>,
    x: Rc<Node>,
    like: Rc<Node>,
    step: Step,
    e: World<E>,
    d: Seq<nat>,
    rows: nat,
    columns: nat,
)
    requires
        same_model(e1, e),
        d.len() == 4,
        d[2] == step.len,
        step.offset == 0,
        takes(x1, e1, x, e, d, 2, step1.offset as int, step1.len as nat),
        value(&like1, e1).format == value(&like, e).format,
        (e.leaf)(Slot::Cos).shape == seq![rows, columns],
        (e.leaf)(Slot::Sin).shape == seq![rows, columns],
    ensures
        takes(
            attention::rotated(&x1, &like1, step1),
            e1,
            attention::rotated(&x, &like, step),
            e,
            d,
            2,
            step1.offset as int,
            step1.len as nat,
        ),
        value(&attention::rotated(&x, &like, step), e).regular(),
{
    broadcast use meaning::group_value;

    let a = e.arithmetic;
    let f = value(&like, e).format;
    let (o, l) = (step1.offset as int, step1.len as nat);
    let n = step.len as nat;
    let (cos, sin) = ((e.leaf)(Slot::Cos), (e.leaf)(Slot::Sin));
    lemma_table(cos, rows, columns, o, l, n, f, a);
    lemma_table(sin, rows, columns, o, l, n, f, a);
    lemma_rotated(
        value(&x1, e1),
        value(&x, e),
        formatted(narrowed(cos, 0, o, l), f, a),
        formatted(narrowed(cos, 0, 0, n), f, a),
        formatted(narrowed(sin, 0, o, l), f, a),
        formatted(narrowed(sin, 0, 0, n), f, a),
        o,
        a,
    );
}

/// The rows of a table for some positions, and for the first ones.
pub proof fn lemma_table<E>(
    t: Tensor<E>,
    rows: nat,
    columns: nat,
    o: int,
    l: nat,
    n: nat,
    f: int,
    a: Arithmetic<E>,
)
    requires
        t.shape == seq![rows, columns],
        0 <= o,
        o + l <= n,
    ensures
        part(
            formatted(narrowed(t, 0, o, l), f, a),
            formatted(narrowed(t, 0, 0, n), f, a),
            0,
            o,
        ),
        formatted(narrowed(t, 0, o, l), f, a).shape == seq![l, columns],
{
    let (x, y) = (narrowed(t, 0, o, l), narrowed(t, 0, 0, n));
    assert(x.shape =~= seq![l, columns]);
    assert(y.shape =~= seq![n, columns]);
    assert(x.shape =~= y.shape.update(0, l));
    assert forall|idx: Seq<int>| #[trigger] within(x.shape, idx) implies (x.at)(idx) == (y.at)(
        idx.update(0, idx[0] + o),
    ) by {
        lemma_within_part(x.shape, y.shape, 0, o, idx);
        let to = idx.update(0, idx[0] + o);
        assert(to.update(0, to[0] + 0) =~= to);
    }
    lemma_formatted(x, y, 0, o, f, a);
}

/// Keys or values for each query head.
pub proof fn lemma_takes_repeated<E>(
    x1: Rc<Node>,
    e1: World<E>,
    x: Rc<Node>,
    e: World<E>,
    groups: usize,
    d: Seq<nat>,
    h: nat,
    off: int,
    len: nat,
)
    requires
        d.len() == 4,
        takes(x1, e1, x, e, d, 2, off, len),
        d[1] * groups as nat == h,
    ensures
        takes(
            for_each_query_head(&x1, groups),
            e1,
            for_each_query_head(&x, groups),
            e,
            d.update(1, h),
            2,
            off,
            len,
        ),
{
    broadcast use meaning::group_value;

    lemma_repeated(value(&x1, e1), value(&x, e), groups as nat, off);
    assert(d.update(2, len).update(1, h) =~= d.update(1, h).update(2, len));
}

/// What the heads attend to, gated where there are gates, and the heads joined.
pub proof fn lemma_takes_joined<E>(
    context1: Rc<Node>,
    gate1: Rc<Node>,
    e1: World<E>,
    context: Rc<Node>,
    gate: Rc<Node>,
    e: World<E>,
    has_gate: bool,
    b: usize,
    s: usize,
    n: usize,
    h: usize,
    d: usize,
    hidden: nat,
    off: int,
)
    requires
        same_model(e1, e),
        (e.arithmetic.width)(Projection::Output) == hidden,
        h * d <= usize::MAX,
        takes(
            context1,
            e1,
            context,
            e,
            seq![b as nat, n as nat, h as nat, d as nat],
            1,
            off,
            s as nat,
        ),
        has_gate ==> takes(
            gate1,
            e1,
            gate,
            e,
            seq![b as nat, n as nat, h as nat, d as nat],
            1,
            off,
            s as nat,
        ),
    ensures
        takes(
            linear(
                Projection::Output,
                &reshape(
                    &(if has_gate {
                        gated(&context1, &gate1)
                    } else {
                        context1
                    }),
                    Dims::Three(b, s, (h * d) as usize),
                ),
            ),
            e1,
            linear(
                Projection::Output,
                &reshape(
                    &(if has_gate {
                        gated(&context, &gate)
                    } else {
                        context
                    }),
                    Dims::Three(b, n, (h * d) as usize),
                ),
            ),
            e,
            seq![b as nat, n as nat, hidden],
            1,
            off,
            s as nat,
        ),
{
    broadcast use meaning::group_value;

    let a = e.arithmetic;
    let full = seq![b as nat, n as nat, h as nat, d as nat];
    let (c1, c) = (value(&context1, e1), value(&context, e));
    let shown1 = if has_gate {
        gated(&context1, &gate1)
    } else {
        context1
    };
    let shown = if has_gate {
        gated(&context, &gate)
    } else {
        context
    };
    if has_gate {
        let (g1, g) = (value(&gate1, e1), value(&gate, e));
        lemma_formatted(g1, g, 1, off, a.single, a);
        let (p1, p) = (formatted(g1, a.single, a), formatted(g, a.single, a));
        let f = |e: E| (a.apply)(SameShape::Sigmoid, e);
        lemma_mapped(p1, p, 1, off, f);
        lemma_formatted(mapped(p1, f), mapped(p, f), 1, off, c.format, a);
        let mul = |p: E, q: E| (a.pair)(Pairwise::BroadcastMul, p, q);
        lemma_broadcasted(
            c1,
            c,
            formatted(mapped(p1, f), c.format, a),
            formatted(mapped(p, f), c.format, a),
            off,
            mul,
        );
    }
    let (y1, y) = (value(&shown1, e1), value(&shown, e));
    assert(full.update(1, s as nat) =~= seq![b as nat, s as nat, h as nat, d as nat]);
    lemma_merged(y1, y, b as nat, s as nat, n as nat, h as nat, d as nat, off);
    let to1 = seq![b as nat, s as nat, (h * d) as nat];
    let to = seq![b as nat, n as nat, (h * d) as nat];
    let g = |row: Seq<E>| (a.linear)(Projection::Output, row);
    lemma_by_rows(reshaped(y1, to1), reshaped(y, to), 1, off, hidden, g);
    assert(to.update(2, hidden) =~= seq![b as nat, n as nat, hidden]);
    assert(to1.update(2, hidden) =~= seq![b as nat, n as nat, hidden].update(1, s as nat));
}

/// A pass over some of the positions of a whole pass: the same weights, and the part of the input.
pub open spec fn is_piece<E>(
    x: Rc<Node>,
    piece: Step,
    e1: World<E>,
    whole: Step,
    e: World<E>,
    hidden: nat,
) -> bool {
    &&& same_model(e1, e)
    &&& piece.batch == whole.batch
    &&& whole.offset == 0
    &&& takes(
        x,
        e1,
        x,
        e,
        seq![whole.batch as nat, whole.len as nat, hidden],
        1,
        piece.offset as int,
        piece.len as nat,
    )
}

/// The queries of a piece, and its gates where there are some.
proof fn lemma_takes_query<E>(
    w: AttentionWeights,
    x: Rc<Node>,
    piece: Step,
    e1: World<E>,
    whole: Step,
    e: World<E>,
    known: graph::Shapes,
    hidden: nat,
    rows: nat,
)
    requires
        w.fits(),
        w.consistent(),
        w.described_by(known, whole, hidden, 0, rows),
        matches_shapes(e, known),
        is_piece(x, piece, e1, whole, e, hidden),
    ensures
        takes(
            w.query(x, piece),
            e1,
            w.query(x, whole),
            e,
            seq![whole.batch as nat, w.num_heads as nat, whole.len as nat, w.head_dim as nat],
            2,
            piece.offset as int,
            piece.len as nat,
        ),
        w.has_gate() ==> takes(
            w.gate(x, piece),
            e1,
            w.gate(x, whole),
            e,
            seq![whole.batch as nat, whole.len as nat, w.num_heads as nat, w.head_dim as nat],
            1,
            piece.offset as int,
            piece.len as nat,
        ),
{
    broadcast use meaning::group_value;

    let (b, n, h, d) = (whole.batch, whole.len, w.num_heads, w.head_dim);
    let (bn, nn, hn, dn) = (b as nat, n as nat, h as nat, d as nat);
    let (off, s) = (piece.offset as int, piece.len);
    let q = w.projected_query(x);
    assert((known.linear)(Projection::Query) is Some);
    assert(w.q_bias ==> (known.leaf)(Slot::QueryBias) is Some);
    lemma_takes_project(
        Projection::Query,
        Slot::QueryBias,
        w.q_bias,
        x,
        e1,
        e,
        bn,
        nn,
        hidden,
        w.q_out_dim as nat,
        off,
        s as nat,
    );
    let full = seq![bn, nn, hn, dn];
    let turned = seq![bn, hn, nn, dn];
    if w.has_gate() {
        let dd = (d * 2) as usize;
        assert(w.q_out_dim == h * dd) by (nonlinear_arith)
            requires
                w.q_out_dim == h * d * 2,
                dd == d * 2,
        ;
        lemma_takes_heads(q, e1, e, b, s, n, h, dd, off);
        let (both1, both) = (w.query_and_gate(x, piece), w.query_and_gate(x, whole));
        let (y1, y) = (value(&both1, e1), value(&both, e));
        assert(seq![bn, nn, hn, dd as nat].update(3, dn) =~= full);
        assert(seq![bn, nn, hn, dd as nat].update(1, s as nat).update(3, dn) =~= full.update(
            1,
            s as nat,
        ));
        lemma_narrowed(y1, y, 1, off, 3, d as int, dn);
        lemma_narrowed(y1, y, 1, off, 3, 0, dn);
        let (states1, states) = (narrow(&both1, 3, 0, d), narrow(&both, 3, 0, d));
        assert(takes(states1, e1, states, e, full, 1, off, s as nat));
        let (dims1, dims) = (Dims::Four(b, s, h, d), Dims::Four(b, n, h, d));
        assert(dims1.filled(0)->0 =~= full.update(1, s as nat));
        lemma_takes_norm(
            states1,
            e1,
            states,
            e,
            Slot::QueryNorm,
            w.q_norm,
            w.norm_eps,
            dims1,
            dims,
            full,
            1,
            off,
            s as nat,
        );
        lemma_takes_transpose(
            head_norm(&states1, Slot::QueryNorm, w.q_norm, w.norm_eps, dims1),
            e1,
            head_norm(&states, Slot::QueryNorm, w.q_norm, w.norm_eps, dims),
            e,
            full,
            1,
            off,
            s as nat,
        );
    } else {
        lemma_takes_heads(q, e1, e, b, s, n, h, d, off);
        lemma_takes_transpose(
            reshape(&q, Dims::Four(b, s, h, d)),
            e1,
            reshape(&q, Dims::Four(b, n, h, d)),
            e,
            full,
            1,
            off,
            s as nat,
        );
        let (dims1, dims) = (Dims::Four(b, h, s, d), Dims::Four(b, h, n, d));
        assert(dims1.filled(0)->0 =~= turned.update(2, s as nat));
        lemma_takes_norm(
            heads_first(&q, piece, h, d),
            e1,
            heads_first(&q, whole, h, d),
            e,
            Slot::QueryNorm,
            w.q_norm,
            w.norm_eps,
            dims1,
            dims,
            turned,
            2,
            off,
            s as nat,
        );
    }
}

/// The keys of a piece, rotated, and its values.
proof fn lemma_takes_cache<E>(
    w: AttentionWeights,
    x: Rc<Node>,
    piece: Step,
    e1: World<E>,
    whole: Step,
    e: World<E>,
    known: graph::Shapes,
    hidden: nat,
    rows: nat,
)
    requires
        w.fits(),
        w.consistent(),
        !w.cached,
        w.described_by(known, whole, hidden, 0, rows),
        matches_shapes(e, known),
        is_piece(x, piece, e1, whole, e, hidden),
    ensures
        takes(
            w.all_keys(x, piece),
            e1,
            w.all_keys(x, whole),
            e,
            seq![whole.batch as nat, w.num_kv_heads as nat, whole.len as nat, w.head_dim as nat],
            2,
            piece.offset as int,
            piece.len as nat,
        ),
        takes(
            w.all_values(x, piece),
            e1,
            w.all_values(x, whole),
            e,
            seq![whole.batch as nat, w.num_kv_heads as nat, whole.len as nat, w.head_dim as nat],
            2,
            piece.offset as int,
            piece.len as nat,
        ),
        value(&w.all_keys(x, whole), e).regular(),
        value(&w.all_values(x, whole), e).regular(),
{
    let (b, n, h, d) = (whole.batch, whole.len, w.num_kv_heads, w.head_dim);
    let (bn, nn, hn, dn) = (b as nat, n as nat, h as nat, d as nat);
    let (off, s) = (piece.offset as int, piece.len);
    let kv = (h * d) as nat;
    assert((known.linear)(Projection::Key) is Some && (known.linear)(Projection::Value) is Some);
    assert(w.k_bias ==> (known.leaf)(Slot::KeyBias) is Some);
    assert(w.v_bias ==> (known.leaf)(Slot::ValueBias) is Some);
    assert((known.leaf)(Slot::Cos) is Some && (known.leaf)(Slot::Sin) is Some);
    lemma_takes_project(
        Projection::Key,
        Slot::KeyBias,
        w.k_bias,
        x,
        e1,
        e,
        bn,
        nn,
        hidden,
        kv,
        off,
        s as nat,
    );
    lemma_takes_project(
        Projection::Value,
        Slot::ValueBias,
        w.v_bias,
        x,
        e1,
        e,
        bn,
        nn,
        hidden,
        kv,
        off,
        s as nat,
    );
    let k = project(Projection::Key, Slot::KeyBias, w.k_bias, &x);
    let v = project(Projection::Value, Slot::ValueBias, w.v_bias, &x);
    lemma_takes_heads(k, e1, e, b, s, n, h, d, off);
    lemma_takes_heads(v, e1, e, b, s, n, h, d, off);
    let full = seq![bn, nn, hn, dn];
    let turned = seq![bn, hn, nn, dn];
    let (four1, four) = (Dims::Four(b, s, h, d), Dims::Four(b, n, h, d));
    lemma_takes_transpose(
        reshape(&k, four1),
        e1,
        reshape(&k, four),
        e,
        full,
        1,
        off,
        s as nat,
    );
    lemma_takes_transpose(
        reshape(&v, four1),
        e1,
        reshape(&v, four),
        e,
        full,
        1,
        off,
        s as nat,
    );
    let (k1, k0) = (heads_first(&k, piece, h, d), heads_first(&k, whole, h, d));
    let (v1, v0) = (heads_first(&v, piece, h, d), heads_first(&v, whole, h, d));
    assert(takes(k1, e1, k0, e, turned, 2, off, s as nat) && takes(
        v1,
        e1,
        v0,
        e,
        turned,
        2,
        off,
        s as nat,
    ) && value(&v0, e).regular()) by {
        broadcast use meaning::group_value;

    }
    let (dims1, dims) = (Dims::Four(b, h, s, d), Dims::Four(b, h, n, d));
    assert(dims1.filled(0)->0 =~= turned.update(2, s as nat));
    lemma_takes_norm(
        k1,
        e1,
        k0,
        e,
        Slot::KeyNorm,
        w.k_norm,
        w.norm_eps,
        dims1,
        dims,
        turned,
        2,
        off,
        s as nat,
    );
    lemma_takes_query(w, x, piece, e1, whole, e, known, hidden, rows);
    lemma_takes_rotated(
        w.key(x, piece),
        w.query(x, piece),
        piece,
        e1,
        w.key(x, whole),
        w.query(x, whole),
        whole,
        e,
        turned,
        rows,
        dn / 2,
    );
    assert(value(&w.all_keys(x, piece), e1) == value(
        &attention::rotated(&w.key(x, piece), &w.query(x, piece), piece),
        e1,
    ) && value(&w.all_keys(x, whole), e) == value(
        &attention::rotated(&w.key(x, whole), &w.query(x, whole), whole),
        e,
    ) && value(&w.all_values(x, piece), e1) == value(&v1, e1) && value(&w.all_values(x, whole), e)
        == value(&v0, e)) by {
        broadcast use meaning::group_value;

    }
}

/// The weights of a layer that has a cache.
pub open spec fn with_cache(w: AttentionWeights) -> AttentionWeights {
    AttentionWeights { cached: true, ..w }
}

/// The keys and values of the last position behind those that the others left are those of all.
proof fn lemma_whole_cache<E>(
    w: AttentionWeights,
    x: Rc<Node>,
    first: Step,
    e1: World<E>,
    next: Step,
    e2: World<E>,
    whole: Step,
    e: World<E>,
    known: graph::Shapes,
    hidden: nat,
    rows: nat,
)
    requires
        w.fits(),
        w.consistent(),
        !w.cached,
        w.described_by(known, whole, hidden, 0, rows),
        matches_shapes(e, known),
        is_piece(x, first, e1, whole, e, hidden),
        is_piece(x, next, e2, whole, e, hidden),
        first.offset == 0,
        next.offset == first.len,
        first.len + next.len == whole.len,
        (e2.leaf)(Slot::CachedKeys) == value(&w.all_keys(x, first), e1),
        (e2.leaf)(Slot::CachedValues) == value(&w.all_values(x, first), e1),
    ensures
        value(&with_cache(w).all_keys(x, next), e2) == value(&w.all_keys(x, whole), e),
        value(&with_cache(w).all_values(x, next), e2) == value(&w.all_values(x, whole), e),
{
    lemma_takes_cache(w, x, first, e1, whole, e, known, hidden, rows);
    lemma_takes_cache(w, x, next, e2, whole, e, known, hidden, rows);
    lemma_joined(
        value(&w.all_keys(x, first), e1),
        value(&w.all_keys(x, next), e2),
        value(&w.all_keys(x, whole), e),
        2,
    );
    lemma_joined(
        value(&w.all_values(x, first), e1),
        value(&w.all_values(x, next), e2),
        value(&w.all_values(x, whole), e),
        2,
    );
    broadcast use meaning::group_value;

    let c = with_cache(w);
    assert(c.query(x, next) == w.query(x, next));
    assert(c.key(x, next) == w.key(x, next));
}

/// The whole pass over `m + 1` positions.
pub open spec fn whole_step(batch: usize, m: usize) -> Step {
    Step { batch, len: (m + 1) as usize, offset: 0, masked: true }
}

/// The pass over the first `m` of them. A single position needs no mask.
pub open spec fn first_step(batch: usize, m: usize) -> Step {
    Step { batch, len: m, offset: 0, masked: m != 1 }
}

/// The pass over the last one.
pub open spec fn next_step(batch: usize, m: usize) -> Step {
    Step { batch, len: 1, offset: m, masked: false }
}

/// What the heads attend to, heads before positions.
pub open spec fn product_of(
    query: &Rc<Node>,
    keys: &Rc<Node>,
    values: &Rc<Node>,
    width: usize,
    hidden_later: bool,
) -> Rc<Node> {
    pair(
        Pairwise::MatMul,
        &apply(
            SameShape::Softmax,
            &with_mask(&attention::scores(query, keys, width), hidden_later),
        ),
        values,
    )
}

/// What [`attended`](attention::attended) computes before heads and positions change places.
proof fn lemma_product<E>(
    query: Rc<Node>,
    keys: Rc<Node>,
    values: Rc<Node>,
    width: usize,
    hidden_later: bool,
    env: World<E>,
)
    ensures
        ({
            let a = env.arithmetic;
            let s = scored(value(&query, env), value(&keys, env), width, a);
            let t = if hidden_later {
                masked(s, formatted((env.leaf)(Slot::Mask), s.format, a), a)
            } else {
                s
            };
            let raw = attention::scores(&query, &keys, width);
            let product = product_of(&query, &keys, &values, width, hidden_later);
            &&& value(&raw, env) == s
            &&& value(&product, env) == multiplied(weighed(t, a), value(&values, env), a)
            &&& attention::attended(&query, &keys, &values, width, hidden_later) == transpose(
                &product,
                1,
                2,
            )
        }),
{
    broadcast use meaning::group_value;

}

/// What the heads of the first positions attend to is part of what those of all positions do.
pub proof fn lemma_takes_first<E>(
    q1: Tensor<E>,
    q: Tensor<E>,
    k1: Tensor<E>,
    k: Tensor<E>,
    v1: Tensor<E>,
    v: Tensor<E>,
    mask1: Option<Tensor<E>>,
    mask: Tensor<E>,
    width: usize,
    m: nat,
    n: nat,
    a: Arithmetic<E>,
    later: E,
    now: E,
    finite: spec_fn(E) -> bool,
    no: E,
    nil: E,
    d: Seq<nat>,
)
    requires
        d.len() == 4,
        d[2] == n,
        0 < m <= n,
        q.shape == d,
        k.shape == d,
        v.shape == d,
        part(q1, q, 2, 0),
        part(k1, k, 2, 0),
        part(v1, v, 2, 0),
        q1.shape[2] == m,
        k1.shape[2] == m,
        v1.shape[2] == m,
        mask1 is None ==> m == 1,
        mask1 is Some ==> is_causal(
            mask1->0,
            d.update(2, m).update(3, m),
            0,
            later,
            now,
        ),
        is_causal(mask, d.update(3, n), 0, later, now),
        all_finite(scored(q, k, width, a), finite),
        all_finite(v, finite),
        omits(a, later, now, finite, no, nil),
    ensures
        ({
            let s1 = scored(q1, k1, width, a);
            let t1 = match mask1 {
                Some(mask1) => masked(s1, mask1, a),
                None => s1,
            };
            let t = masked(scored(q, k, width, a), mask, a);
            &&& part(multiplied(weighed(t1, a), v1, a), multiplied(weighed(t, a), v, a), 2, 0)
            &&& multiplied(weighed(t, a), v, a).shape == d
            &&& multiplied(weighed(t1, a), v1, a).shape == d.update(2, m)
        }),
{
    let (s1, s) = (scored(q1, k1, width, a), scored(q, k, width, a));
    let d1 = d.update(2, m).update(3, m);
    assert(s.shape =~= d.update(3, n));
    assert(s1.shape =~= d1);
    assert forall|idx: Seq<int>| #[trigger] within(d1, idx) implies (s1.at)(idx) == (s.at)(idx)
        && within(s.shape, idx) by {
        lemma_first_scored(q1, q, k1, k, width, m, a, d, idx);
        assert forall|j: int| 0 <= j < 4 implies 0 <= #[trigger] idx[j] < s.shape[j] by {
            assert(0 <= idx[j] < d1[j]);
        }
    }
    assert(all_finite(s1, finite)) by {
        assert forall|idx: Seq<int>| within(s1.shape, idx) implies finite(
            #[trigger] (s1.at)(idx),
        ) by {
            assert(within(d1, idx));
            assert(finite((s.at)(idx)));
        }
    }
    let t = masked(s, mask, a);
    let t1 = match mask1 {
        Some(mask1) => masked(s1, mask1, a),
        None => s1,
    };
    assert forall|idx: Seq<int>| #[trigger] within(s.shape, idx) implies line(t, 3, idx) == seen_row(
        s,
        no,
        idx,
        n,
        0,
    ) by {
        lemma_masked_row(s, mask, 0, a, later, now, finite, no, nil, idx);
    }
    shapes::lemma_broadcast4(s.shape, mask.shape);
    if mask1 is Some {
        shapes::lemma_broadcast4(s1.shape, mask1->0.shape);
    }
    assert(t1.shape == d1);
    assert forall|idx: Seq<int>| #[trigger] within(t1.shape, idx) implies line(t1, 3, idx)
        == seen_row(s, no, idx, m, 0) by {
        if mask1 is Some {
            lemma_masked_row(s1, mask1->0, 0, a, later, now, finite, no, nil, idx);
        }
        let (x, y) = (line(t1, 3, idx), seen_row(s, no, idx, m, 0));
        assert(0 <= idx[2] < d1[2]);
        assert forall|j: int| 0 <= j < m implies #[trigger] x[j] == y[j] by {
            let i = idx.update(3, j);
            assert(within(d1, i));
            assert((s1.at)(i) == (s.at)(i));
            if mask1 is Some {
                assert(x[j] == seen_row(s1, no, idx, m, 0)[j]);
            }
        }
        assert(x =~= y);
    }
    lemma_first_attended(t1, s, t, v1, v, m, n, a, later, now, finite, no, nil, d);
}

/// An attention layer of the quantized model continues from its cache: after a pass over `m`
/// positions, a pass over one more that finds their keys and values in the cache gives what one
/// masked pass over all `m + 1` positions gives for the last, as the first pass does for the others.
/// The cache then holds what that one pass would have left.
///
/// Scores and values have to be finite, and the arithmetic to leave out hidden positions.
pub proof fn attention_continues_from_its_cache<E>(
    w: AttentionWeights,
    x: Rc<Node>,
    batch: usize,
    m: usize,
    known: graph::Shapes,
    hidden: nat,
    rows: nat,
    e: World<E>,
    e1: World<E>,
    e2: World<E>,
    finite: spec_fn(E) -> bool,
    no: E,
    nil: E,
)
    requires
        w.fits(),
        w.consistent(),
        !w.cached,
        0 < m < usize::MAX,
        w.described_by(known, whole_step(batch, m), hidden, 0, rows),
        matches_shapes(e, known),
        is_piece(x, first_step(batch, m), e1, whole_step(batch, m), e, hidden),
        is_piece(x, next_step(batch, m), e2, whole_step(batch, m), e, hidden),
        (e.leaf)(Slot::Mask) == value(&causal_mask((m + 1) as usize), e),
        m != 1 ==> (e1.leaf)(Slot::Mask) == value(&causal_mask(m), e1),
        (e2.leaf)(Slot::CachedKeys) == value(&w.all_keys(x, first_step(batch, m)), e1),
        (e2.leaf)(Slot::CachedValues) == value(&w.all_values(x, first_step(batch, m)), e1),
        all_finite(value(&raw_scores(w, x, whole_step(batch, m)), e), finite),
        all_finite(value(&spread_values(w, x, whole_step(batch, m)), e), finite),
        ({
            let a = e.arithmetic;
            let f = value(&w.query(x, whole_step(batch, m)), e).format;
            let later = in_format(in_format(a.hidden, a.single, a.model, a), a.model, f, a);
            let now = in_format(in_format(a.zero, a.single, a.model, a), a.model, f, a);
            omits(a, later, now, finite, no, nil)
        }),
    ensures
        value(&w.output(x, whole_step(batch, m)), e) == joined(
            value(&w.output(x, first_step(batch, m)), e1),
            value(&with_cache(w).output(x, next_step(batch, m)), e2),
            1,
        ),
        value(&with_cache(w).all_keys(x, next_step(batch, m)), e2) == value(
            &w.all_keys(x, whole_step(batch, m)),
            e,
        ),
        value(&with_cache(w).all_values(x, next_step(batch, m)), e2) == value(
            &w.all_values(x, whole_step(batch, m)),
            e,
        ),
{
    let a = e.arithmetic;
    let (whole, first, next) = (whole_step(batch, m), first_step(batch, m), next_step(batch, m));
    let (h, d) = (w.num_heads, w.head_dim);
    let n = (m + 1) as usize;
    let (bn, nn, hn, dn) = (batch as nat, n as nat, h as nat, d as nat);
    let full = seq![bn, hn, nn, dn];
    let few = seq![bn, w.num_kv_heads as nat, nn, dn];
    let c = with_cache(w);
    let groups = w.num_kv_groups;
    let f = value(&w.query(x, whole), e).format;
    assert((known.leaf)(Slot::Cos) is Some && (known.leaf)(Slot::Sin) is Some);
    lemma_takes_query(w, x, first, e1, whole, e, known, hidden, rows);
    lemma_takes_query(w, x, next, e2, whole, e, known, hidden, rows);
    lemma_takes_cache(w, x, first, e1, whole, e, known, hidden, rows);
    lemma_whole_cache(w, x, first, e1, next, e2, whole, e, known, hidden, rows);
    let (q1, q2, q0) = (w.query(x, first), w.query(x, next), w.query(x, whole));
    lemma_takes_rotated(q1, q1, first, e1, q0, q0, whole, e, full, rows, dn / 2);
    lemma_takes_rotated(q2, q2, next, e2, q0, q0, whole, e, full, rows, dn / 2);
    lemma_takes_repeated(
        w.all_keys(x, first),
        e1,
        w.all_keys(x, whole),
        e,
        groups,
        few,
        hn,
        0,
        m as nat,
    );
    lemma_takes_repeated(
        w.all_values(x, first),
        e1,
        w.all_values(x, whole),
        e,
        groups,
        few,
        hn,
        0,
        m as nat,
    );
    assert(few.update(1, hn) =~= full);
    let (r1, r2, r0) = (asked(w, x, first), asked(w, x, next), asked(w, x, whole));
    let k1 = for_each_query_head(&w.all_keys(x, first), groups);
    let k2 = for_each_query_head(&c.all_keys(x, next), groups);
    let k0 = for_each_query_head(&w.all_keys(x, whole), groups);
    let (v1, v2, v0) = (
        spread_values(w, x, first),
        spread_values(c, x, next),
        spread_values(w, x, whole),
    );
    assert(value(&k2, e2) == value(&k0, e) && value(&v2, e2) == value(&v0, e)) by {
        broadcast use meaning::group_value;

    }
    lemma_product(r1, k1, v1, d, first.masked, e1);
    lemma_product(r2, k2, v2, d, false, e2);
    lemma_product(r0, k0, v0, d, true, e);
    let later = in_format(in_format(a.hidden, a.single, a.model, a), a.model, f, a);
    let now = in_format(in_format(a.zero, a.single, a.model, a), a.model, f, a);
    let later0 = in_format(a.hidden, a.single, a.model, a);
    let now0 = in_format(a.zero, a.single, a.model, a);
    let wide = full.update(3, nn);
    causal_laws::causal_mask_hides_later_positions(n, wide, e);
    causal_laws::lemma_formatted_mask((e.leaf)(Slot::Mask), wide, 0, later0, now0, f, a);
    let narrow_shape = full.update(2, m as nat).update(3, m as nat);
    if first.masked {
        causal_laws::causal_mask_hides_later_positions(m, narrow_shape, e1);
        causal_laws::lemma_formatted_mask(
            (e1.leaf)(Slot::Mask),
            narrow_shape,
            0,
            later0,
            now0,
            f,
            a,
        );
    }
    assert(value(&r0, e).format == f && value(&r1, e1).format == f) by {
        broadcast use meaning::group_value;

    }
    let mask = formatted((e.leaf)(Slot::Mask), f, a);
    let mask1 = if first.masked {
        Some(formatted((e1.leaf)(Slot::Mask), f, a))
    } else {
        None
    };
    lemma_takes_first(
        value(&r1, e1),
        value(&r0, e),
        value(&k1, e1),
        value(&k0, e),
        value(&v1, e1),
        value(&v0, e),
        mask1,
        mask,
        d,
        m as nat,
        nn,
        a,
        later,
        now,
        finite,
        no,
        nil,
        full,
    );
    let s0 = scored(value(&r0, e), value(&k0, e), d, a);
    let s2 = scored(value(&r2, e2), value(&k0, e), d, a);
    let t0 = masked(s0, mask, a);
    lemma_some_scored(value(&r2, e2), value(&r0, e), value(&k0, e), d, m as int, a, full);
    assert forall|idx: Seq<int>| #[trigger] within(s0.shape, idx) implies line(t0, 3, idx)
        == seen_row(s0, no, idx, nn, 0) by {
        lemma_masked_row(s0, mask, 0, a, later, now, finite, no, nil, idx);
    }
    shapes::lemma_broadcast4(s0.shape, mask.shape);
    assert forall|idx: Seq<int>| #[trigger] within(s2.shape, idx) implies line(s2, 3, idx)
        == seen_row(s0, no, idx.update(2, idx[2] + m), nn, 0) by {
        lemma_last_rows(s2, s0, m as nat, nn, no, full, idx);
    }
    lemma_last_attended(s2, s0, t0, value(&v0, e), m as nat, nn, a, no, full);
    let p1 = product_of(&r1, &k1, &v1, d, first.masked);
    let p2 = product_of(&r2, &k2, &v2, d, false);
    let p0 = product_of(&r0, &k0, &v0, d, true);
    assert(takes(p1, e1, p0, e, full, 2, 0, m as nat));
    assert(takes(p2, e2, p0, e, full, 2, m as int, 1));
    lemma_takes_transpose(p1, e1, p0, e, full, 2, 0, m as nat);
    lemma_takes_transpose(p2, e2, p0, e, full, 2, m as int, 1);
    assert(c.query(x, next) == w.query(x, next));
    assert(c.gate(x, next) == w.gate(x, next));
    assert(w.context(x, first) == transpose(&p1, 1, 2));
    assert(c.context(x, next) == transpose(&p2, 1, 2));
    assert(w.context(x, whole) == transpose(&p0, 1, 2));
    assert((known.linear)(Projection::Output) is Some);
    assert(h * d <= usize::MAX) by {
        assert(h * d <= h * d * 2);
    }
    lemma_takes_joined(
        w.context(x, first),
        w.gate(x, first),
        e1,
        w.context(x, whole),
        w.gate(x, whole),
        e,
        w.has_gate(),
        batch,
        m,
        n,
        h,
        d,
        hidden,
        0,
    );
    lemma_takes_joined(
        c.context(x, next),
        c.gate(x, next),
        e2,
        w.context(x, whole),
        w.gate(x, whole),
        e,
        w.has_gate(),
        batch,
        1,
        n,
        h,
        d,
        hidden,
        m as int,
    );
    assert(value(&w.output(x, whole), e).regular()) by {
        broadcast use meaning::group_value;

    }
    lemma_joined(
        value(&w.output(x, first), e1),
        value(&c.output(x, next), e2),
        value(&w.output(x, whole), e),
        1,
    );
}

}
