//! What formulas compute has the shape that their operations give it.
use crate::graph;
use crate::graph::{Node, Projection, Scan, Shapes, Slot};
use crate::meaning;
use crate::meaning::{collected, scanned, state_after, value, World};
use std::rc::Rc;
use vstd::prelude::*;

verus! {

/// The tensors that formulas refer to have the shapes `shapes`.
pub open spec fn matches_shapes<E>(env: World<E>, shapes: Shapes) -> bool {
    &&& forall|slot: Slot|
        (#[trigger] (shapes.leaf)(slot)) is Some ==> (env.leaf)(slot).shape == (shapes.leaf)(
            slot,
        )->0
    &&& forall|map: Projection|
        match #[trigger] (shapes.linear)(map) {
            Some(widths) => (env.arithmetic.width)(map) == widths.1,
            None => true,
        }
    &&& env.arithmetic.kernel == shapes.conv.1
    &&& env.arithmetic.embedding == shapes.embedding
    &&& shapes.carry is Some ==> env.carry.shape == shapes.carry->0
}

/// The state of a scan keeps its shape.
proof fn lemma_state_has_its_shape<E>(
    scan: Rc<Scan>,
    env: World<E>,
    shapes: Shapes,
    d: Seq<nat>,
    k: nat,
)
    requires
        matches_shapes(env, shapes),
        graph::shape(&scan.first, shapes) == Some(d),
        graph::shape(&scan.next, shapes.within(scan.steps as nat, Some(d))) == Some(d),
    ensures
        state_after(scan, k, env).shape == d,
    decreases scan, 0nat, k,
{
    if k == 0 {
        meaning::lemma_state_first(scan, env);
        value_has_its_shape(&scan.first, env, shapes, d);
    } else {
        let j = (k - 1) as nat;
        lemma_state_has_its_shape(scan, env, shapes, d, j);
        meaning::lemma_state_next(scan, j, env);
        let inner = shapes.within(scan.steps as nat, Some(d));
        value_has_its_shape(
            &scan.next,
            env.in_step(j as int, state_after(scan, j, env)),
            inner,
            d,
        );
    }
}

/// What a formula computes has the shape that its operations give it.
pub proof fn value_has_its_shape<E>(n: &Node, env: World<E>, shapes: Shapes, d: Seq<nat>)
    requires
        matches_shapes(env, shapes),
        graph::shape(n, shapes) == Some(d),
    ensures
        value(n, env).shape == d,
    decreases n, 0nat, 0nat,
{
    match n {
        Node::Leaf(slot) => {
            meaning::value_of_leaf(*slot, env);
            graph::shape_of_leaf(*slot, shapes);
        },
        Node::ZerosSingle { dims } => {
            meaning::value_of_zeros_single(*dims, env);
            graph::shape_of_zeros_single(*dims, shapes);
        },
        Node::ZerosModel { dims } => {
            meaning::value_of_zeros_model(*dims, env);
            graph::shape_of_zeros_model(*dims, shapes);
        },
        Node::ZerosLike { dims, like } => {
            meaning::value_of_zeros_like(*dims, *like, env);
            graph::shape_of_zeros_like(*dims, *like, shapes);
        },
        Node::CausalMask { len } => {
            meaning::value_of_causal_mask(*len, env);
            graph::shape_of_causal_mask(*len, shapes);
        },
        Node::Embed { ids } => {
            meaning::value_of_embed(*ids, env);
            graph::shape_of_embed(*ids, shapes);
            value_has_its_shape(ids, env, shapes, graph::shape(ids, shapes)->0);
        },
        Node::Select { x, dim, index } => {
            meaning::value_of_select(*x, *dim, *index, env);
            graph::shape_of_select(*x, *dim, *index, shapes);
            let s = graph::shape(x, shapes)->0;
            value_has_its_shape(x, env, shapes, s);
            assert(s.update(*dim as int, 1).remove(*dim as int) =~= s.remove(*dim as int));
        },
        Node::Linear { map, x } => {
            meaning::value_of_linear(*map, *x, env);
            graph::shape_of_linear(*map, *x, shapes);
            value_has_its_shape(x, env, shapes, graph::shape(x, shapes)->0);
        },
        Node::RmsNorm { weight, eps, x } => {
            meaning::value_of_rms_norm(*weight, *eps, *x, env);
            graph::shape_of_rms_norm(*weight, *eps, *x, shapes);
            value_has_its_shape(x, env, shapes, graph::shape(x, shapes)->0);
        },
        Node::Conv { x } => {
            meaning::value_of_conv(*x, env);
            graph::shape_of_conv(*x, shapes);
            value_has_its_shape(x, env, shapes, graph::shape(x, shapes)->0);
        },
        Node::Reshape { x, dims } => {
            meaning::value_of_reshape(*x, *dims, env);
            graph::shape_of_reshape(*x, *dims, shapes);
            value_has_its_shape(x, env, shapes, graph::shape(x, shapes)->0);
        },
        Node::Expand { x, dims } => {
            meaning::value_of_expand(*x, *dims, env);
            graph::shape_of_expand(*x, *dims, shapes);
            value_has_its_shape(x, env, shapes, graph::shape(x, shapes)->0);
        },
        Node::Narrow { x, dim, start, len } => {
            meaning::value_of_narrow(*x, *dim, *start, *len, env);
            graph::shape_of_narrow(*x, *dim, *start, *len, shapes);
            value_has_its_shape(x, env, shapes, graph::shape(x, shapes)->0);
        },
        Node::NarrowStep { x, dim, len } => {
            meaning::value_of_narrow_step(*x, *dim, *len, env);
            graph::shape_of_narrow_step(*x, *dim, *len, shapes);
            value_has_its_shape(x, env, shapes, graph::shape(x, shapes)->0);
        },
        Node::Transpose { x, first, second } => {
            meaning::value_of_transpose(*x, *first, *second, env);
            graph::shape_of_transpose(*x, *first, *second, shapes);
            value_has_its_shape(x, env, shapes, graph::shape(x, shapes)->0);
        },
        Node::Unsqueeze { x, dim } => {
            meaning::value_of_unsqueeze(*x, *dim, env);
            graph::shape_of_unsqueeze(*x, *dim, shapes);
            value_has_its_shape(x, env, shapes, graph::shape(x, shapes)->0);
        },
        Node::FlattenThree { x } => {
            meaning::value_of_flatten_three(*x, env);
            graph::shape_of_flatten_three(*x, shapes);
            value_has_its_shape(x, env, shapes, graph::shape(x, shapes)->0);
        },
        Node::RepeatHeads { x, times } => {
            meaning::value_of_repeat_heads(*x, *times, env);
            graph::shape_of_repeat_heads(*x, *times, shapes);
            value_has_its_shape(x, env, shapes, graph::shape(x, shapes)->0);
        },
        Node::Apply { op, x } => {
            meaning::value_of_apply(*op, *x, env);
            graph::shape_of_apply(*op, *x, shapes);
            value_has_its_shape(x, env, shapes, graph::shape(x, shapes)->0);
        },
        Node::SumKeep { x } => {
            meaning::value_of_sum_keep(*x, env);
            graph::shape_of_sum_keep(*x, shapes);
            value_has_its_shape(x, env, shapes, graph::shape(x, shapes)->0);
        },
        Node::MeanKeep { x } => {
            meaning::value_of_mean_keep(*x, env);
            graph::shape_of_mean_keep(*x, shapes);
            value_has_its_shape(x, env, shapes, graph::shape(x, shapes)->0);
        },
        Node::Sum { x, dim } => {
            meaning::value_of_sum(*x, *dim, env);
            graph::shape_of_sum(*x, *dim, shapes);
            value_has_its_shape(x, env, shapes, graph::shape(x, shapes)->0);
        },
        Node::Plus { x, scalar } => {
            meaning::value_of_plus(*x, *scalar, env);
            graph::shape_of_plus(*x, *scalar, shapes);
            value_has_its_shape(x, env, shapes, graph::shape(x, shapes)->0);
        },
        Node::Times { x, scalar } => {
            meaning::value_of_times(*x, *scalar, env);
            graph::shape_of_times(*x, *scalar, shapes);
            value_has_its_shape(x, env, shapes, graph::shape(x, shapes)->0);
        },
        Node::Cat { first, second, dim } => {
            meaning::value_of_cat(*first, *second, *dim, env);
            graph::shape_of_cat(*first, *second, *dim, shapes);
            value_has_its_shape(first, env, shapes, graph::shape(first, shapes)->0);
            value_has_its_shape(second, env, shapes, graph::shape(second, shapes)->0);
        },
        Node::Pair { op, a, b } => {
            meaning::value_of_pair(*op, *a, *b, env);
            graph::shape_of_pair(*op, *a, *b, shapes);
            value_has_its_shape(a, env, shapes, graph::shape(a, shapes)->0);
            value_has_its_shape(b, env, shapes, graph::shape(b, shapes)->0);
        },
        Node::Rope { x, cos, sin } => {
            meaning::value_of_rope(*x, *cos, *sin, env);
            graph::shape_of_rope(*x, *cos, *sin, shapes);
            value_has_its_shape(x, env, shapes, graph::shape(x, shapes)->0);
        },
        Node::Collect { item, steps, dim } => {
            let inner = shapes.within(*steps as nat, None);
            meaning::value_of_collect(*steps, *dim, *item, env);
            graph::shape_of_collect(*steps, *dim, *item, shapes);
            meaning::lemma_collected(*item, *steps as nat, env);
            let e = env.in_step(0, arbitrary());
            assert(collected(*item, *steps as nat, env)[0] == value(item, e));
            value_has_its_shape(item, e, inner, graph::shape(item, inner)->0);
        },
        Node::ScanItems { scan } => {
            meaning::value_of_scan_items(*scan, env);
            graph::shape_of_scan_items(*scan, shapes);
            meaning::lemma_scanned(*scan, env);
            let first = graph::shape(&scan.first, shapes)->0;
            let inner = shapes.within(scan.steps as nat, Some(first));
            lemma_state_has_its_shape(*scan, env, shapes, first, 0);
            let e = env.in_step(0, state_after(*scan, 0, env));
            assert(scanned(*scan, env)[0] == value(&scan.item, e));
            value_has_its_shape(&scan.item, e, inner, graph::shape(&scan.item, inner)->0);
        },
        Node::ScanState { scan } => {
            meaning::value_of_scan_state(*scan, env);
            graph::shape_of_scan_state(*scan, shapes);
            lemma_state_has_its_shape(*scan, env, shapes, d, scan.steps as nat);
        },
    }
}

}
