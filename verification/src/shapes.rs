//! Facts on the shapes of the common formulas.
use crate::blocks;
use crate::blocks::l2_norm;
use crate::graph;
use crate::graph::{Dims, FloatSetting, Node, SameShape, Scalar, Slot};
use crate::ops;
use crate::ops::apply;
use std::rc::Rc;
use vstd::prelude::*;

verus! {

broadcast use {graph::group_shape, graph::group_closed};

/// Broadcasting two shapes of four dimensions, the second with ones where it differs.
pub proof fn lemma_broadcast4(d: Seq<nat>, e: Seq<nat>)
    requires
        d.len() == 4,
        e.len() == 4,
        forall|i: int| 0 <= i < 4 ==> (#[trigger] e[i] == 1 || e[i] == d[i]),
    ensures
        graph::broadcast(d, e) == Some(d),
{
    assert(forall|i: int| 0 <= i < 4 ==> graph::aligned(d, 4, i) == d[i]);
    assert(forall|i: int| 0 <= i < 4 ==> graph::aligned(e, 4, i) == e[i]);
    assert(graph::broadcast(d, e)->0 =~= d);
}

/// The product of matrices in two further dimensions.
pub proof fn lemma_product4(b: nat, h: nat, m: nat, k: nat, n: nat)
    ensures
        graph::product(seq![b, h, m, k], seq![b, h, k, n]) == Some(seq![b, h, m, n]),
{
    assert(seq![b, h, m, k].take(2) =~= seq![b, h, k, n].take(2));
    assert(seq![b, h, m, k].update(3, n) =~= seq![b, h, m, n]);
}

/// The norm of a tensor of four dimensions has its shape.
pub proof fn lemma_l2_norm(x: Rc<Node>, env: graph::Shapes, d: Seq<nat>)
    requires
        graph::shape(&x, env) == Some(d),
        d.len() == 4,
    ensures
        graph::shape(&l2_norm(&x), env) == Some(d),
        graph::closed(&x) ==> graph::closed(&l2_norm(&x)),
{
    let inv = blocks::inverse_root(
        &ops::plus(
            &ops::sum_keep(&apply(SameShape::Sqr, &x)),
            Scalar::Millionth,
        ),
    );
    let e = d.update(3, 1);
    assert(graph::shape(&inv, env) == Some(e));
    lemma_broadcast4(d, e);
}

/// The number of elements of two, three, four and five dimensions.
pub proof fn lemma_elements(a: nat, b: nat, c: nat, d: nat, e: nat)
    ensures
        graph::elements(seq![a, b]) == a * b,
        graph::elements(seq![a, b, c]) == a * b * c,
        graph::elements(seq![a, b, c, d]) == a * b * c * d,
        graph::elements(seq![a, b, c, d, e]) == a * b * c * d * e,
{
    reveal_with_fuel(graph::elements, 6);
    assert(seq![a, b, c, d, e].drop_last() =~= seq![a, b, c, d]);
    assert(seq![a, b, c, d].drop_last() =~= seq![a, b, c]);
    assert(seq![a, b, c].drop_last() =~= seq![a, b]);
    assert(seq![a, b].drop_last() =~= seq![a]);
    assert(seq![a].drop_last() =~= Seq::<nat>::empty());
    assert(1 * a == a);
}

/// The last of three dimensions split into two.
pub proof fn lemma_split_last(b: usize, s: usize, w: nat, h: usize, d: usize)
    requires
        w == h * d,
    ensures
        graph::reshaped(Some(seq![b as nat, s as nat, w]), Dims::Four(b, s, h, d)) == Some(
            seq![b as nat, s as nat, h as nat, d as nat],
        ),
{
    lemma_elements(b as nat, s as nat, w, 0, 0);
    lemma_elements(b as nat, s as nat, h as nat, d as nat, 0);
    assert((b as nat) * (s as nat) * w == (b as nat) * (s as nat) * (h as nat) * (d as nat))
        by (nonlinear_arith)
        requires
            w == (h as nat) * (d as nat),
    ;
}

/// The last two of four dimensions made one.
pub proof fn lemma_join_last(b: usize, s: usize, h: nat, d: nat, w: usize)
    requires
        w == h * d,
    ensures
        graph::reshaped(Some(seq![b as nat, s as nat, h, d]), Dims::Three(b, s, w)) == Some(
            seq![b as nat, s as nat, w as nat],
        ),
{
    lemma_elements(b as nat, s as nat, w as nat, 0, 0);
    lemma_elements(b as nat, s as nat, h, d, 0);
    assert((b as nat) * (s as nat) * (w as nat) == (b as nat) * (s as nat) * h * d)
        by (nonlinear_arith)
        requires
            w as nat == h * d,
    ;
}

/// The first three of four dimensions made one, and split again.
pub proof fn lemma_flatten_and_back(n: nat, a: usize, b: usize, c: usize, d: usize)
    requires
        n == a * b * c,
    ensures
        graph::reshaped(Some(seq![n, d as nat]), Dims::Four(a, b, c, d)) == Some(
            seq![a as nat, b as nat, c as nat, d as nat],
        ),
{
    lemma_elements(n, d as nat, 0, 0, 0);
    lemma_elements(a as nat, b as nat, c as nat, d as nat, 0);
}

/// Rows of width `d`, from four dimensions.
pub proof fn lemma_rows(a: nat, b: nat, c: nat, d: usize)
    requires
        d > 0,
    ensures
        graph::reshaped(Some(seq![a, b, c, d as nat]), Dims::HoleOne(d)) == Some(
            seq![a * b * c, d as nat],
        ),
{
    let n = a * b * c;
    lemma_elements(a, b, c, d as nat, 0);
    lemma_elements(n, d as nat, 0, 0, 0);
    assert((n * d as nat) % d as nat == 0 && (n * d as nat) / d as nat == n) by (nonlinear_arith)
        requires
            d > 0,
    ;
}

/// Rows of width `d` joined to three dimensions.
pub proof fn lemma_rows_joined(b: usize, s: usize, c: nat, d: nat, w: usize)
    requires
        w == c * d,
    ensures
        graph::reshaped(Some(seq![(b * s * c) as nat, d]), Dims::Three(b, s, w)) == Some(
            seq![b as nat, s as nat, w as nat],
        ),
{
    lemma_elements((b * s * c) as nat, d, 0, 0, 0);
    lemma_elements(b as nat, s as nat, w as nat, 0, 0);
    assert((b as nat * s as nat * c) * d == b as nat * s as nat * w as nat) by (nonlinear_arith)
        requires
            w as nat == c * d,
    ;
}

/// Broadcasting two shapes of two dimensions, the second with ones where it differs.
pub proof fn lemma_broadcast2(d: Seq<nat>, e: Seq<nat>)
    requires
        d.len() == 2,
        e.len() == 2,
        forall|i: int| 0 <= i < 2 ==> (#[trigger] e[i] == 1 || e[i] == d[i]),
    ensures
        graph::broadcast(d, e) == Some(d),
{
    assert(forall|i: int| 0 <= i < 2 ==> graph::aligned(d, 2, i) == d[i]);
    assert(forall|i: int| 0 <= i < 2 ==> graph::aligned(e, 2, i) == e[i]);
    assert(graph::broadcast(d, e)->0 =~= d);
}

/// Broadcasting two shapes of three dimensions, the second with ones where it differs.
pub proof fn lemma_broadcast3(d: Seq<nat>, e: Seq<nat>)
    requires
        d.len() == 3,
        e.len() == 3,
        forall|i: int| 0 <= i < 3 ==> (#[trigger] e[i] == 1 || e[i] == d[i]),
    ensures
        graph::broadcast(d, e) == Some(d),
{
    assert(forall|i: int| 0 <= i < 3 ==> graph::aligned(d, 3, i) == d[i]);
    assert(forall|i: int| 0 <= i < 3 ==> graph::aligned(e, 3, i) == e[i]);
    assert(graph::broadcast(d, e)->0 =~= d);
}

/// Broadcasting a vector along the last dimension, on either side.
pub proof fn lemma_broadcast_last(d: Seq<nat>, w: nat)
    requires
        d.len() >= 1,
        d.last() == w,
    ensures
        graph::broadcast(d, seq![w]) == Some(d),
        graph::broadcast(seq![w], d) == Some(d),
{
    let v = seq![w];
    let n = d.len() as int;
    assert forall|i: int| 0 <= i < n implies graph::aligned(d, n, i) == d[i] && graph::aligned(
        v,
        n,
        i,
    ) == (if i == n - 1 {
        w
    } else {
        1
    }) by {}
    assert(graph::broadcast(d, v)->0 =~= d);
    assert(graph::broadcast(v, d)->0 =~= d);
}

/// The norm of rows has their shape.
pub proof fn lemma_mean_square_norm(
    x: Rc<Node>,
    eps: FloatSetting,
    env: graph::Shapes,
    d: Seq<nat>,
)
    requires
        graph::shape(&x, env) == Some(d),
        d.len() >= 1,
    ensures
        graph::shape(&blocks::mean_square_norm(&x, eps), env) == Some(d),
{
    let inv = blocks::inverse_root(
        &ops::plus(&ops::mean_keep(&apply(SameShape::Sqr, &x)), Scalar::Epsilon(eps)),
    );
    let n = d.len() as int;
    let e = d.update(n - 1, 1);
    assert(graph::shape(&inv, env) == Some(e));
    assert forall|i: int| 0 <= i < n implies graph::aligned(d, n, i) == d[i] && graph::aligned(
        e,
        n,
        i,
    ) == e[i] by {}
    assert(graph::broadcast(d, e)->0 =~= d);
}

/// Softplus has the shape of its argument, and does not depend on a scan around it.
pub proof fn lemma_softplus(a: Rc<Node>, env: graph::Shapes, d: Seq<nat>)
    requires
        graph::shape(&a, env) == Some(d),
        d.len() >= 1,
        (env.leaf)(Slot::DtBias) == Some(seq![d.last()]),
    ensures
        graph::shape(&blocks::softplus(&a), env) == Some(d),
        graph::closed(&a) ==> graph::closed(&blocks::softplus(&a)),
{
    lemma_broadcast_last(d, d.last());
}

/// Repeating the heads of a tensor multiplies their number.
pub proof fn lemma_repeat_interleave(x: Rc<Node>, n: usize, dims: blocks::Heads, env: graph::Shapes)
    requires
        dims.heads * n <= usize::MAX,
        graph::shape(&x, env) == Some(
            seq![dims.batch as nat, dims.len as nat, dims.heads as nat, dims.width as nat],
        ),
    ensures
        graph::shape(&blocks::repeat_interleave(&x, n, dims), env) == Some(
            seq![dims.batch as nat, dims.len as nat, (dims.heads * n) as nat, dims.width as nat],
        ),
        graph::closed(&x) ==> graph::closed(&blocks::repeat_interleave(&x, n, dims)),
{
    let (b, s, h, d) = (dims.batch as nat, dims.len as nat, dims.heads as nat, dims.width as nat);
    let m = n as nat;
    if n != 1 {
        let one = seq![b, s, h, 1, d];
        assert(seq![b, s, h, d].insert(3, 1) =~= one);
        let up = ops::unsqueeze(&x, 3);
        assert(graph::shape(&up, env) == Some(one));
        let wide = seq![b, s, h, m, d];
        assert(graph::expands_to(one, wide));
        let target = (dims.heads * n) as usize;
        let spread = ops::expand(
            &up,
            Dims::Five(dims.batch, dims.len, dims.heads, n, dims.width),
        );
        assert(graph::shape(&spread, env) == Some(wide));
        lemma_elements(b, s, h, m, d);
        lemma_elements(b, s, target as nat, d, 0);
        assert(b * s * h * m * d == b * s * (target as nat) * d) by (nonlinear_arith)
            requires
                target as nat == h * m,
        ;
        assert(graph::reshaped(
            Some(wide),
            Dims::Four(dims.batch, dims.len, target, dims.width),
        ) == Some(seq![b, s, target as nat, d]));
    } else {
        assert(dims.heads * n == dims.heads);
    }
}

/// The last of three dimensions split into heads of width `d`, as many as fill it.
pub proof fn lemma_split_into(b: usize, s: usize, w: nat, h: nat, d: usize)
    requires
        w == h * d,
        b > 0,
        s > 0,
        d > 0,
    ensures
        graph::reshaped(Some(seq![b as nat, s as nat, w]), Dims::TwoHoleOne(b, s, d)) == Some(
            seq![b as nat, s as nat, h, d as nat],
        ),
{
    let (bn, sn, dn) = (b as nat, s as nat, d as nat);
    let known = bn * sn * dn;
    lemma_elements(bn, sn, w, 0, 0);
    lemma_elements(bn, sn, h, dn, 0);
    assert(bn * sn * w == known * h && known > 0) by (nonlinear_arith)
        requires
            w == h * dn,
            known == bn * sn * dn,
            bn > 0,
            sn > 0,
            dn > 0,
    ;
    assert((known * h) % known == 0 && (known * h) / known == h) by (nonlinear_arith)
        requires
            known > 0,
    ;
    assert(bn * sn * h * dn == bn * sn * w) by (nonlinear_arith)
        requires
            w == h * dn,
    ;
    assert((b * s * d) as nat == known);
}

/// Rows of width `d` joined to three dimensions, the last as large as needed.
pub proof fn lemma_rows_joined_into(b: usize, s: usize, c: nat, d: nat)
    requires
        b > 0,
        s > 0,
    ensures
        graph::reshaped(Some(seq![(b * s * c) as nat, d]), Dims::TwoHole(b, s)) == Some(
            seq![b as nat, s as nat, c * d],
        ),
{
    let (bn, sn) = (b as nat, s as nat);
    let known = bn * sn;
    lemma_elements((b * s * c) as nat, d, 0, 0, 0);
    lemma_elements(bn, sn, c * d, 0, 0);
    assert((bn * sn * c) * d == known * (c * d) && known > 0) by (nonlinear_arith)
        requires
            known == bn * sn,
            bn > 0,
            sn > 0,
    ;
    let w = c * d;
    assert((known * w) % known == 0 && (known * w) / known == w) by (nonlinear_arith)
        requires
            known > 0,
    ;
    assert((b * s) as nat == known);
    assert((b * s * c) as nat == bn * sn * c);
}

}
