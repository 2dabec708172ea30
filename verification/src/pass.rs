//! Forward passes as formulas.
use crate::graph::Node;
use std::rc::Rc;
use vstd::prelude::*;

verus! {

/// One forward pass: how many sequences, how many positions of each, how many came before, and
/// whether later positions have to be hidden.
#[derive(Debug, Clone, Copy, PartialEq, Eq, Structural)]
pub struct Step {
    pub batch: usize,
    pub len: usize,
    pub offset: usize,
    pub masked: bool,
}

/// What a layer leaves behind for the next pass.
#[derive(Debug)]
pub enum Kept {
    Attention { keys: Rc<Node>, values: Rc<Node> },
    StateSpace { conv_state: Rc<Node>, recurrent_state: Rc<Node> },
}

/// One layer of a forward pass, as formulas over its input.
#[derive(Debug)]
pub struct LayerPass {
    pub output: Rc<Node>,
    pub kept: Kept,
}

/// A forward pass: the embedding of the token ids, the mask if there is one, the layers one after
/// the other, and the result from the output of the last layer.
#[derive(Debug)]
pub struct ForwardPass {
    pub hidden: Rc<Node>,
    pub mask: Option<Rc<Node>>,
    pub layers: Vec<LayerPass>,
    pub last: Rc<Node>,
}

}
