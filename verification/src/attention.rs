//! Full attention of the quantized model.
use crate::graph;
use crate::graph::{Dims, FloatSetting, Node, Pairwise, Projection, SameShape, Scalar, Slot};
use crate::ops::{
    apply, cat, flatten_three, leaf, linear, narrow, pair, repeat_heads, reshape, rms_norm, rope,
    same, times, transpose,
};
use crate::pass::Step;
use crate::shapes;
use std::rc::Rc;
use vstd::prelude::*;

verus! {

broadcast use {graph::group_shape, graph::group_closed};

/// What an attention layer knows of its weights, and whether it has cached keys and values.
#[derive(Debug, Clone, Copy, PartialEq, Eq, Structural)]
pub struct AttentionWeights {
    pub num_heads: usize,
    pub num_kv_heads: usize,
    pub num_kv_groups: usize,
    pub head_dim: usize,
    /// The width of the query projection: with room for a gate, or without.
    pub q_out_dim: usize,
    pub q_norm: bool,
    pub k_norm: bool,
    pub q_bias: bool,
    pub k_bias: bool,
    pub v_bias: bool,
    /// What the norms add to a mean square.
    pub norm_eps: FloatSetting,
    pub cached: bool,
}

/// The output of an attention layer, and the keys and values to cache.
#[derive(Debug)]
pub struct AttentionStep {
    pub output: Rc<Node>,
    pub keys: Rc<Node>,
    pub values: Rc<Node>,
}

/// A projection of `x`, with its bias if it has one.
#[verifier::allow_in_spec]
pub fn project(map: Projection, bias: Slot, biased: bool, x: &Rc<Node>) -> Rc<Node>
    returns
        if biased {
            pair(Pairwise::BroadcastAdd, &linear(map, x), &leaf(bias))
        } else {
            linear(map, x)
        },
{
    if biased {
        pair(Pairwise::BroadcastAdd, &linear(map, x), &leaf(bias))
    } else {
        linear(map, x)
    }
}

/// `x` split into heads, heads before positions.
#[verifier::allow_in_spec]
pub fn heads_first(x: &Rc<Node>, step: Step, heads: usize, width: usize) -> Rc<Node>
    returns
        apply(
            SameShape::Contiguous,
            &transpose(&reshape(x, Dims::Four(step.batch, step.len, heads, width)), 1, 2),
        ),
{
    apply(
        SameShape::Contiguous,
        &transpose(&reshape(x, Dims::Four(step.batch, step.len, heads, width)), 1, 2),
    )
}

/// `x`, of dimensions `dims`, with each head normalised if there is a norm.
#[verifier::allow_in_spec]
pub fn head_norm(
    x: &Rc<Node>,
    norm: Slot,
    normed: bool,
    eps: FloatSetting,
    dims: Dims,
) -> Rc<Node>
    returns
        if normed {
            reshape(&rms_norm(norm, eps, &flatten_three(x)), dims)
        } else {
            *x
        },
{
    if normed {
        reshape(&rms_norm(norm, eps, &flatten_three(x)), dims)
    } else {
        same(x)
    }
}

/// The rotary embedding of `x` at the positions of the step, the tables in the number format of
/// `like`.
#[verifier::allow_in_spec]
pub fn rotated(x: &Rc<Node>, like: &Rc<Node>, step: Step) -> Rc<Node>
    returns
        rope(
            &apply(SameShape::Contiguous, x),
            &pair(Pairwise::FormatOf, &narrow(&leaf(Slot::Cos), 0, step.offset, step.len), like),
            &pair(Pairwise::FormatOf, &narrow(&leaf(Slot::Sin), 0, step.offset, step.len), like),
        ),
{
    rope(
        &apply(SameShape::Contiguous, x),
        &pair(Pairwise::FormatOf, &narrow(&leaf(Slot::Cos), 0, step.offset, step.len), like),
        &pair(Pairwise::FormatOf, &narrow(&leaf(Slot::Sin), 0, step.offset, step.len), like),
    )
}

/// `x` behind what was cached before it.
#[verifier::allow_in_spec]
pub fn appended(x: &Rc<Node>, cache: Slot, cached: bool) -> Rc<Node>
    returns
        if cached {
            cat(&leaf(cache), &apply(SameShape::Contiguous, x), 2)
        } else {
            apply(SameShape::Contiguous, x)
        },
{
    if cached {
        cat(&leaf(cache), &apply(SameShape::Contiguous, x), 2)
    } else {
        apply(SameShape::Contiguous, x)
    }
}

/// `softmax(query * keys^T / sqrt(width) + mask) * values`, positions before heads.
#[verifier::allow_in_spec]
pub fn attended(
    query: &Rc<Node>,
    keys: &Rc<Node>,
    values: &Rc<Node>,
    width: usize,
    masked: bool,
) -> Rc<Node>
    returns
        transpose(
            &pair(
                Pairwise::MatMul,
                &apply(SameShape::Softmax, &with_mask(&scores(query, keys, width), masked)),
                values,
            ),
            1,
            2,
        ),
{
    transpose(
        &pair(
            Pairwise::MatMul,
            &apply(SameShape::Softmax, &with_mask(&scores(query, keys, width), masked)),
            values,
        ),
        1,
        2,
    )
}

/// `query * keys^T / sqrt(width)`.
#[verifier::allow_in_spec]
pub fn scores(query: &Rc<Node>, keys: &Rc<Node>, width: usize) -> Rc<Node>
    returns
        times(
            &pair(Pairwise::MatMul, query, &transpose(keys, 2, 3)),
            Scalar::InvSqrt(width),
        ),
{
    times(&pair(Pairwise::MatMul, query, &transpose(keys, 2, 3)), Scalar::InvSqrt(width))
}

/// Scores with the mask added, in their number format.
#[verifier::allow_in_spec]
pub fn with_mask(scores: &Rc<Node>, masked: bool) -> Rc<Node>
    returns
        if masked {
            pair(
                Pairwise::BroadcastAdd,
                scores,
                &pair(Pairwise::FormatOf, &leaf(Slot::Mask), scores),
            )
        } else {
            *scores
        },
{
    if masked {
        pair(
            Pairwise::BroadcastAdd,
            scores,
            &pair(Pairwise::FormatOf, &leaf(Slot::Mask), scores),
        )
    } else {
        same(scores)
    }
}

/// `x` multiplied by the logistic function of `gate`.
#[verifier::allow_in_spec]
pub fn gated(x: &Rc<Node>, gate: &Rc<Node>) -> Rc<Node>
    returns
        pair(
            Pairwise::BroadcastMul,
            x,
            &pair(
                Pairwise::FormatOf,
                &apply(SameShape::Sigmoid, &apply(SameShape::Single, gate)),
                x,
            ),
        ),
{
    pair(
        Pairwise::BroadcastMul,
        x,
        &pair(
            Pairwise::FormatOf,
            &apply(SameShape::Sigmoid, &apply(SameShape::Single, gate)),
            x,
        ),
    )
}

/// Keys or values, one for each query head.
#[verifier::allow_in_spec]
pub fn for_each_query_head(x: &Rc<Node>, groups: usize) -> Rc<Node>
    returns
        apply(SameShape::Contiguous, &repeat_heads(x, groups)),
{
    apply(SameShape::Contiguous, &repeat_heads(x, groups))
}

impl AttentionWeights {
    /// The widths that the formulas multiply fit in a machine word.
    pub open spec fn fits(self) -> bool {
        self.num_heads * self.head_dim * 2 <= usize::MAX && self.head_dim * 2 <= usize::MAX
    }

    /// Whether the query projection holds a gate for the output.
    pub open spec fn has_gate(self) -> bool {
        self.q_out_dim == self.num_heads * self.head_dim * 2
    }

    /// The query projection, with its bias.
    pub open spec fn projected_query(self, x: Rc<Node>) -> Rc<Node> {
        project(Projection::Query, Slot::QueryBias, self.q_bias, &x)
    }

    /// The query projection split into heads, each with its gate behind it.
    pub open spec fn query_and_gate(self, x: Rc<Node>, step: Step) -> Rc<Node> {
        reshape(
            &self.projected_query(x),
            Dims::Four(step.batch, step.len, self.num_heads, (self.head_dim * 2) as usize),
        )
    }

    /// Output gates.
    pub open spec fn gate(self, x: Rc<Node>, step: Step) -> Rc<Node> {
        narrow(&self.query_and_gate(x, step), 3, self.head_dim, self.head_dim)
    }

    /// The queries before the rotary embedding.
    ///
    /// With a gate they are normalised before heads and positions change places, without one after.
    pub open spec fn query(self, x: Rc<Node>, step: Step) -> Rc<Node> {
        let (b, s, h, d) = (step.batch, step.len, self.num_heads, self.head_dim);
        if self.has_gate() {
            apply(
                SameShape::Contiguous,
                &transpose(
                    &head_norm(
                        &narrow(&self.query_and_gate(x, step), 3, 0, d),
                        Slot::QueryNorm,
                        self.q_norm,
                        self.norm_eps,
                        Dims::Four(b, s, h, d),
                    ),
                    1,
                    2,
                ),
            )
        } else {
            head_norm(
                &heads_first(&self.projected_query(x), step, h, d),
                Slot::QueryNorm,
                self.q_norm,
                self.norm_eps,
                Dims::Four(b, h, s, d),
            )
        }
    }

    /// The keys before the rotary embedding.
    pub open spec fn key(self, x: Rc<Node>, step: Step) -> Rc<Node> {
        let (h, d) = (self.num_kv_heads, self.head_dim);
        head_norm(
            &heads_first(&project(Projection::Key, Slot::KeyBias, self.k_bias, &x), step, h, d),
            Slot::KeyNorm,
            self.k_norm,
            self.norm_eps,
            Dims::Four(step.batch, h, step.len, d),
        )
    }

    /// The keys of all positions so far.
    pub open spec fn all_keys(self, x: Rc<Node>, step: Step) -> Rc<Node> {
        appended(
            &rotated(&self.key(x, step), &self.query(x, step), step),
            Slot::CachedKeys,
            self.cached,
        )
    }

    /// The values of all positions so far.
    pub open spec fn all_values(self, x: Rc<Node>, step: Step) -> Rc<Node> {
        appended(
            &heads_first(
                &project(Projection::Value, Slot::ValueBias, self.v_bias, &x),
                step,
                self.num_kv_heads,
                self.head_dim,
            ),
            Slot::CachedValues,
            self.cached,
        )
    }

    /// What the heads attend to, ungated.
    pub open spec fn context(self, x: Rc<Node>, step: Step) -> Rc<Node> {
        attended(
            &rotated(&self.query(x, step), &self.query(x, step), step),
            &for_each_query_head(&self.all_keys(x, step), self.num_kv_groups),
            &for_each_query_head(&self.all_values(x, step), self.num_kv_groups),
            self.head_dim,
            step.masked,
        )
    }

    /// The output of the layer.
    pub open spec fn output(self, x: Rc<Node>, step: Step) -> Rc<Node> {
        let context = if self.has_gate() {
            gated(&self.context(x, step), &self.gate(x, step))
        } else {
            self.context(x, step)
        };
        linear(
            Projection::Output,
            &reshape(
                &context,
                Dims::Three(step.batch, step.len, (self.num_heads * self.head_dim) as usize),
            ),
        )
    }

    /// Attention of the positions of `x` to themselves and to what is cached. The keys and values
    /// of the step join the cache.
    pub fn forward(&mut self, x: &Rc<Node>, step: Step) -> (r: AttentionStep)
        requires
            old(self).fits(),
        ensures
            r.output == old(self).output(*x, step),
            r.keys == old(self).all_keys(*x, step),
            r.values == old(self).all_values(*x, step),
            *final(self) == (AttentionWeights { cached: true, ..*old(self) }),
    {
        let (b, s, h, d): (usize, usize, usize, usize) = (
            step.batch,
            step.len,
            self.num_heads,
            self.head_dim,
        );
        assert(h * d <= h * d * 2);
        let width: usize = h * d;
        let q = project(Projection::Query, Slot::QueryBias, self.q_bias, x);
        let k = project(Projection::Key, Slot::KeyBias, self.k_bias, x);
        let v = project(Projection::Value, Slot::ValueBias, self.v_bias, x);
        let mut gate: Option<Rc<Node>> = None;
        let query = if self.q_out_dim == width * 2 {
            let both = reshape(&q, Dims::Four(b, s, h, d * 2));
            gate = Some(narrow(&both, 3, d, d));
            let states = narrow(&both, 3, 0, d);
            let normed = head_norm(
                &states,
                Slot::QueryNorm,
                self.q_norm,
                self.norm_eps,
                Dims::Four(b, s, h, d),
            );
            apply(SameShape::Contiguous, &transpose(&normed, 1, 2))
        } else {
            head_norm(
                &heads_first(&q, step, h, d),
                Slot::QueryNorm,
                self.q_norm,
                self.norm_eps,
                Dims::Four(b, h, s, d),
            )
        };
        let key = head_norm(
            &heads_first(&k, step, self.num_kv_heads, d),
            Slot::KeyNorm,
            self.k_norm,
            self.norm_eps,
            Dims::Four(b, self.num_kv_heads, s, d),
        );
        let value = heads_first(&v, step, self.num_kv_heads, d);
        let rotated_query = rotated(&query, &query, step);
        let keys = appended(&rotated(&key, &query, step), Slot::CachedKeys, self.cached);
        let values = appended(&value, Slot::CachedValues, self.cached);
        let context = attended(
            &rotated_query,
            &for_each_query_head(&keys, self.num_kv_groups),
            &for_each_query_head(&values, self.num_kv_groups),
            d,
            step.masked,
        );
        let context = match &gate {
            Some(gate) => gated(&context, gate),
            None => context,
        };
        let output = linear(Projection::Output, &reshape(&context, Dims::Three(b, s, width)));
        self.cached = true;
        AttentionStep { output, keys, values }
    }

    /// Forgets what is cached.
    pub fn clear_kv_cache(&mut self)
        ensures
            *final(self) == (AttentionWeights { cached: false, ..*old(self) }),
    {
        self.cached = false;
    }
}

impl AttentionWeights {
    /// The widths of the layer belong together.
    pub open spec fn consistent(self) -> bool {
        &&& self.num_kv_heads * self.num_kv_groups == self.num_heads
        &&& self.has_gate() || self.q_out_dim == self.num_heads * self.head_dim
        &&& self.head_dim % 2 == 0
    }

    /// The tensors behind a formula have the shapes that the layer expects: `past` positions are
    /// cached, and the rotary tables reach beyond the positions of the step. A mask hides
    /// positions of the step only, so with a mask nothing may be cached.
    pub open spec fn described_by(
        self,
        env: graph::Shapes,
        step: Step,
        hidden: nat,
        past: nat,
        rows: nat,
    ) -> bool {
        let (q, d) = (self.q_out_dim as nat, self.head_dim as nat);
        let kv = (self.num_kv_heads * self.head_dim) as nat;
        let width = (self.num_heads * self.head_dim) as nat;
        let cache = seq![step.batch as nat, self.num_kv_heads as nat, past, d];
        &&& (env.linear)(Projection::Query) == Some((hidden, q))
        &&& (env.linear)(Projection::Key) == Some((hidden, kv))
        &&& (env.linear)(Projection::Value) == Some((hidden, kv))
        &&& (env.linear)(Projection::Output) == Some((width, hidden))
        &&& self.q_bias ==> (env.leaf)(Slot::QueryBias) == Some(seq![q])
        &&& self.k_bias ==> (env.leaf)(Slot::KeyBias) == Some(seq![kv])
        &&& self.v_bias ==> (env.leaf)(Slot::ValueBias) == Some(seq![kv])
        &&& self.q_norm ==> (env.leaf)(Slot::QueryNorm) == Some(seq![d])
        &&& self.k_norm ==> (env.leaf)(Slot::KeyNorm) == Some(seq![d])
        &&& (env.leaf)(Slot::Cos) == Some(seq![rows, d / 2])
        &&& (env.leaf)(Slot::Sin) == Some(seq![rows, d / 2])
        &&& step.offset + step.len <= rows
        &&& if self.cached {
            (env.leaf)(Slot::CachedKeys) == Some(cache) && (env.leaf)(Slot::CachedValues) == Some(
                cache,
            )
        } else {
            past == 0
        }
        &&& step.masked ==> past == 0 && (env.leaf)(Slot::Mask) == Some(
            seq![1, 1, step.len as nat, step.len as nat],
        )
    }
}

proof fn lemma_project(
    map: Projection,
    bias: Slot,
    biased: bool,
    x: Rc<Node>,
    env: graph::Shapes,
    b: nat,
    s: nat,
    from: nat,
    to: nat,
)
    requires
        graph::shape(&x, env) == Some(seq![b, s, from]),
        (env.linear)(map) == Some((from, to)),
        bias != Slot::Carry,
        biased ==> (env.leaf)(bias) == Some(seq![to]),
    ensures
        graph::shape(&project(map, bias, biased, &x), env) == Some(seq![b, s, to]),
{
    let y = seq![b, s, to];
    assert(seq![b, s, from].update(2, to) =~= y);
    assert(graph::shape(&linear(map, &x), env) == Some(y));
    if biased {
        let w = seq![to];
        assert(forall|i: int| 0 <= i < 3 ==> graph::aligned(y, 3, i) == y[i]);
        assert(graph::aligned(w, 3, 0) == 1 && graph::aligned(w, 3, 1) == 1);
        assert(graph::aligned(w, 3, 2) == to);
        assert(graph::broadcast(y, w)->0 =~= y);
    }
}

proof fn lemma_heads_first(
    x: Rc<Node>,
    env: graph::Shapes,
    step: Step,
    heads: usize,
    width: usize,
    w: nat,
)
    requires
        w == heads * width,
        graph::shape(&x, env) == Some(seq![step.batch as nat, step.len as nat, w]),
    ensures
        graph::shape(&heads_first(&x, step, heads, width), env) == Some(
            seq![step.batch as nat, heads as nat, step.len as nat, width as nat],
        ),
{
    let (b, s, h, d) = (step.batch as nat, step.len as nat, heads as nat, width as nat);
    shapes::lemma_split_last(step.batch, step.len, w, heads, width);
    assert(graph::transposed(Some(seq![b, s, h, d]), 1, 2)->0 =~= seq![b, h, s, d]);
}

proof fn lemma_head_norm(
    x: Rc<Node>,
    norm: Slot,
    normed: bool,
    eps: FloatSetting,
    env: graph::Shapes,
    p: usize,
    q: usize,
    r: usize,
    d: usize,
)
    requires
        graph::shape(&x, env) == Some(seq![p as nat, q as nat, r as nat, d as nat]),
        normed ==> (env.leaf)(norm) == Some(seq![d as nat]),
    ensures
        graph::shape(&head_norm(&x, norm, normed, eps, Dims::Four(p, q, r, d)), env) == Some(
            seq![p as nat, q as nat, r as nat, d as nat],
        ),
{
    if normed {
        let full = seq![p as nat, q as nat, r as nat, d as nat];
        let n = (p * q * r) as nat;
        assert(full.take(3) =~= seq![p as nat, q as nat, r as nat]);
        assert(full.skip(3) =~= seq![d as nat]);
        shapes::lemma_elements(p as nat, q as nat, r as nat, 0, 0);
        assert(seq![n] + seq![d as nat] =~= seq![n, d as nat]);
        let flat = flatten_three(&x);
        assert(graph::shape(&flat, env) == Some(seq![n, d as nat]));
        assert(seq![n, d as nat].update(1, d as nat) =~= seq![n, d as nat]);
        shapes::lemma_flatten_and_back(n, p, q, r, d);
    }
}

proof fn lemma_rotated(
    x: Rc<Node>,
    like: Rc<Node>,
    env: graph::Shapes,
    step: Step,
    h: nat,
    d: nat,
    rows: nat,
)
    requires
        graph::shape(&x, env) == Some(seq![step.batch as nat, h, step.len as nat, d]),
        graph::shape(&like, env) is Some,
        d % 2 == 0,
        (env.leaf)(Slot::Cos) == Some(seq![rows, d / 2]),
        (env.leaf)(Slot::Sin) == Some(seq![rows, d / 2]),
        step.offset + step.len <= rows,
    ensures
        graph::shape(&rotated(&x, &like, step), env) == Some(
            seq![step.batch as nat, h, step.len as nat, d],
        ),
{
    assert(seq![rows, d / 2].update(0, step.len as nat) =~= seq![step.len as nat, d / 2]);
}

proof fn lemma_appended(
    x: Rc<Node>,
    cache: Slot,
    cached: bool,
    env: graph::Shapes,
    b: nat,
    h: nat,
    past: nat,
    s: nat,
    d: nat,
)
    requires
        cache != Slot::Carry,
        graph::shape(&x, env) == Some(seq![b, h, s, d]),
        if cached {
            (env.leaf)(cache) == Some(seq![b, h, past, d])
        } else {
            past == 0
        },
    ensures
        graph::shape(&appended(&x, cache, cached), env) == Some(seq![b, h, past + s, d]),
{
    if cached {
        assert(seq![b, h, s, d].update(2, past) =~= seq![b, h, past, d]);
        assert(seq![b, h, past, d].update(2, past + s) =~= seq![b, h, past + s, d]);
    }
}

proof fn lemma_attended(
    query: Rc<Node>,
    keys: Rc<Node>,
    values: Rc<Node>,
    width: usize,
    masked: bool,
    env: graph::Shapes,
    b: nat,
    h: nat,
    s: nat,
    t: nat,
    d: nat,
)
    requires
        graph::shape(&query, env) == Some(seq![b, h, s, d]),
        graph::shape(&keys, env) == Some(seq![b, h, t, d]),
        graph::shape(&values, env) == Some(seq![b, h, t, d]),
        masked ==> (env.leaf)(Slot::Mask) == Some(seq![1, 1, s, t]),
    ensures
        graph::shape(&attended(&query, &keys, &values, width, masked), env) == Some(
            seq![b, s, h, d],
        ),
{
    assert(graph::transposed(Some(seq![b, h, t, d]), 2, 3)->0 =~= seq![b, h, d, t]);
    shapes::lemma_product4(b, h, s, d, t);
    let raw = scores(&query, &keys, width);
    assert(graph::shape(&raw, env) == Some(seq![b, h, s, t]));
    let sums = with_mask(&raw, masked);
    assert(graph::shape(&sums, env) == Some(seq![b, h, s, t])) by {
        shapes::lemma_broadcast4(seq![b, h, s, t], seq![1, 1, s, t]);
    }
    shapes::lemma_product4(b, h, s, t, d);
    assert(graph::transposed(Some(seq![b, h, s, d]), 1, 2)->0 =~= seq![b, s, h, d]);
}

pub proof fn lemma_for_each_query_head(
    x: Rc<Node>,
    env: graph::Shapes,
    groups: usize,
    b: nat,
    kv: nat,
    h: nat,
    t: nat,
    d: nat,
)
    requires
        graph::shape(&x, env) == Some(seq![b, kv, t, d]),
        kv * groups as nat == h,
    ensures
        graph::shape(&for_each_query_head(&x, groups), env) == Some(seq![b, h, t, d]),
{
    assert(seq![b, kv, t, d].update(1, h) =~= seq![b, h, t, d]);
}

proof fn lemma_query(
    w: AttentionWeights,
    x: Rc<Node>,
    step: Step,
    env: graph::Shapes,
    hidden: nat,
    past: nat,
    rows: nat,
)
    requires
        w.fits(),
        w.consistent(),
        w.described_by(env, step, hidden, past, rows),
        graph::shape(&x, env) == Some(seq![step.batch as nat, step.len as nat, hidden]),
    ensures
        graph::shape(&w.query(x, step), env) == Some(
            seq![step.batch as nat, w.num_heads as nat, step.len as nat, w.head_dim as nat],
        ),
        w.has_gate() ==> graph::shape(&w.gate(x, step), env) == Some(
            seq![step.batch as nat, step.len as nat, w.num_heads as nat, w.head_dim as nat],
        ),
{
    let (b, s, h, d) = (step.batch, step.len, w.num_heads, w.head_dim);
    let (bn, sn, hn, dn) = (b as nat, s as nat, h as nat, d as nat);
    let q = w.projected_query(x);
    lemma_project(
        Projection::Query,
        Slot::QueryBias,
        w.q_bias,
        x,
        env,
        bn,
        sn,
        hidden,
        w.q_out_dim as nat,
    );
    if w.has_gate() {
        let dd = (d * 2) as usize;
        assert(w.q_out_dim == h * dd) by (nonlinear_arith)
            requires
                w.q_out_dim == h * d * 2,
                dd == d * 2,
        ;
        shapes::lemma_split_last(b, s, w.q_out_dim as nat, h, dd);
        let both = w.query_and_gate(x, step);
        assert(graph::shape(&both, env) == Some(seq![bn, sn, hn, dd as nat]));
        let full = seq![bn, sn, hn, dn];
        assert(seq![bn, sn, hn, dd as nat].update(3, dn) =~= full);
        let states = narrow(&both, 3, 0, d);
        assert(graph::shape(&states, env) == Some(full));
        assert(graph::shape(&w.gate(x, step), env) == Some(full));
        lemma_head_norm(states, Slot::QueryNorm, w.q_norm, w.norm_eps, env, b, s, h, d);
        assert(graph::transposed(Some(full), 1, 2)->0 =~= seq![bn, hn, sn, dn]);
    } else {
        lemma_heads_first(q, env, step, h, d, w.q_out_dim as nat);
        lemma_head_norm(
            heads_first(&q, step, h, d),
            Slot::QueryNorm,
            w.q_norm,
            w.norm_eps,
            env,
            b,
            h,
            s,
            d,
        );
    }
}

proof fn lemma_key(
    w: AttentionWeights,
    x: Rc<Node>,
    step: Step,
    env: graph::Shapes,
    hidden: nat,
    past: nat,
    rows: nat,
)
    requires
        w.described_by(env, step, hidden, past, rows),
        graph::shape(&x, env) == Some(seq![step.batch as nat, step.len as nat, hidden]),
    ensures
        graph::shape(&w.key(x, step), env) == Some(
            seq![step.batch as nat, w.num_kv_heads as nat, step.len as nat, w.head_dim as nat],
        ),
{
    let kv = (w.num_kv_heads * w.head_dim) as nat;
    lemma_project(
        Projection::Key,
        Slot::KeyBias,
        w.k_bias,
        x,
        env,
        step.batch as nat,
        step.len as nat,
        hidden,
        kv,
    );
    let k = project(Projection::Key, Slot::KeyBias, w.k_bias, &x);
    lemma_heads_first(k, env, step, w.num_kv_heads, w.head_dim, kv);
    lemma_head_norm(
        heads_first(&k, step, w.num_kv_heads, w.head_dim),
        Slot::KeyNorm,
        w.k_norm,
        w.norm_eps,
        env,
        step.batch,
        w.num_kv_heads,
        step.len,
        w.head_dim,
    );
}

proof fn lemma_all_values(
    w: AttentionWeights,
    x: Rc<Node>,
    step: Step,
    env: graph::Shapes,
    hidden: nat,
    past: nat,
    rows: nat,
)
    requires
        w.described_by(env, step, hidden, past, rows),
        graph::shape(&x, env) == Some(seq![step.batch as nat, step.len as nat, hidden]),
    ensures
        graph::shape(&w.all_values(x, step), env) == Some(
            seq![
                step.batch as nat,
                w.num_kv_heads as nat,
                past + step.len as nat,
                w.head_dim as nat,
            ],
        ),
{
    let kv = (w.num_kv_heads * w.head_dim) as nat;
    lemma_project(
        Projection::Value,
        Slot::ValueBias,
        w.v_bias,
        x,
        env,
        step.batch as nat,
        step.len as nat,
        hidden,
        kv,
    );
    let v = project(Projection::Value, Slot::ValueBias, w.v_bias, &x);
    lemma_heads_first(v, env, step, w.num_kv_heads, w.head_dim, kv);
    lemma_appended(
        heads_first(&v, step, w.num_kv_heads, w.head_dim),
        Slot::CachedValues,
        w.cached,
        env,
        step.batch as nat,
        w.num_kv_heads as nat,
        past,
        step.len as nat,
        w.head_dim as nat,
    );
}

/// A step of an attention layer of consistent widths has the shape of its input, and leaves
/// `step.len` positions more in the cache than it found there.
pub proof fn attention_fits(
    w: AttentionWeights,
    x: Rc<Node>,
    step: Step,
    env: graph::Shapes,
    hidden: nat,
    past: nat,
    rows: nat,
)
    requires
        w.fits(),
        w.consistent(),
        w.described_by(env, step, hidden, past, rows),
        graph::shape(&x, env) == Some(seq![step.batch as nat, step.len as nat, hidden]),
    ensures
        graph::shape(&w.output(x, step), env) == Some(
            seq![step.batch as nat, step.len as nat, hidden],
        ),
        ({
            let cache = seq![
                step.batch as nat,
                w.num_kv_heads as nat,
                past + step.len as nat,
                w.head_dim as nat,
            ];
            &&& graph::shape(&w.all_keys(x, step), env) == Some(cache)
            &&& graph::shape(&w.all_values(x, step), env) == Some(cache)
        }),
{
    let (b, s, d) = (step.batch as nat, step.len as nat, w.head_dim as nat);
    let (h, kv) = (w.num_heads as nat, w.num_kv_heads as nat);
    let total = past + s;
    lemma_query(w, x, step, env, hidden, past, rows);
    lemma_key(w, x, step, env, hidden, past, rows);
    lemma_all_values(w, x, step, env, hidden, past, rows);
    let (query, key) = (w.query(x, step), w.key(x, step));
    lemma_rotated(query, query, env, step, h, d, rows);
    lemma_rotated(key, query, env, step, kv, d, rows);
    lemma_appended(
        rotated(&key, &query, step),
        Slot::CachedKeys,
        w.cached,
        env,
        b,
        kv,
        past,
        s,
        d,
    );
    lemma_for_each_query_head(w.all_keys(x, step), env, w.num_kv_groups, b, kv, h, total, d);
    lemma_for_each_query_head(w.all_values(x, step), env, w.num_kv_groups, b, kv, h, total, d);
    lemma_attended(
        rotated(&query, &query, step),
        for_each_query_head(&w.all_keys(x, step), w.num_kv_groups),
        for_each_query_head(&w.all_values(x, step), w.num_kv_groups),
        w.head_dim,
        step.masked,
        env,
        b,
        h,
        s,
        total,
        d,
    );
    lemma_joined(w, x, step, env, hidden);
}

/// Gating, and the heads joined.
proof fn lemma_joined(
    w: AttentionWeights,
    x: Rc<Node>,
    step: Step,
    env: graph::Shapes,
    hidden: nat,
)
    requires
        w.fits(),
        (env.linear)(Projection::Output) == Some(((w.num_heads * w.head_dim) as nat, hidden)),
        graph::shape(&w.context(x, step), env) == Some(
            seq![step.batch as nat, step.len as nat, w.num_heads as nat, w.head_dim as nat],
        ),
        w.has_gate() ==> graph::shape(&w.gate(x, step), env) == Some(
            seq![step.batch as nat, step.len as nat, w.num_heads as nat, w.head_dim as nat],
        ),
    ensures
        graph::shape(&w.output(x, step), env) == Some(
            seq![step.batch as nat, step.len as nat, hidden],
        ),
{
    let full = seq![step.batch as nat, step.len as nat, w.num_heads as nat, w.head_dim as nat];
    let width = (w.num_heads * w.head_dim) as usize;
    let context = if w.has_gate() {
        gated(&w.context(x, step), &w.gate(x, step))
    } else {
        w.context(x, step)
    };
    shapes::lemma_broadcast4(full, full);
    assert(graph::shape(&context, env) == Some(full));
    shapes::lemma_join_last(
        step.batch,
        step.len,
        w.num_heads as nat,
        w.head_dim as nat,
        width,
    );
    let joined = seq![step.batch as nat, step.len as nat, width as nat];
    assert(joined.update(2, hidden) =~= seq![step.batch as nat, step.len as nat, hidden]);
}

}
