//! What the parser hands to the engine: the syntax tree as a flat sequence of
//! nodes, the source text, and the span of each node in it.

use vstd::prelude::*;
use std::collections::HashMap;
use crate::ids::NodeId;

verus! {

/// One node of the syntax tree. A node names its children by their indices.
#[derive(Debug)]
pub enum AstNode {
    Int,
    Float,
    String,
    Name,
    Type,
    Variable,
    True,
    False,
    Equal,
    NotEqual,
    LessThan,
    GreaterThan,
    LessThanOrEqual,
    GreaterThanOrEqual,
    Plus,
    Minus,
    Multiply,
    Divide,
    And,
    Or,
    Assignment,
    Let { variable_name: NodeId, ty: Option<NodeId>, is_mutable: bool, initializer: NodeId },
    While { condition: NodeId, block: NodeId },
    Call { head: NodeId, args: Vec<NodeId> },
    BinaryOp { lhs: NodeId, op: NodeId, rhs: NodeId },
    Block(Vec<NodeId>),
    If { condition: NodeId, then_block: NodeId, else_expression: Option<NodeId> },
    Statement(NodeId),
    Garbage,
}

/// The result of parsing one piece of source text.
///
/// The nodes are numbered in the order in which the parser completed them:
/// the children of a node come before it, and the root comes last.
#[derive(Debug)]
pub struct EngineDelta {
    /// The nodes of the tree, by node index.
    pub ast_nodes: Vec<AstNode>,
    /// The source text.
    pub contents: Vec<u8>,
    /// Where in the source text each node starts, by node index.
    pub span_start: Vec<usize>,
    /// Where in the source text each node ends, by node index.
    pub span_end: Vec<usize>,
    /// For a floating-point literal, the bit pattern of the number that its
    /// text denotes, by node index.
    pub float_values: HashMap<usize, i64>,
}

/// One more than the greatest index among `nodes`, and 0 if there are none.
pub open spec fn id_bound(nodes: Seq<NodeId>) -> nat
    decreases nodes.len(),
{
    if nodes.len() == 0 {
        0
    } else {
        let rest = id_bound(nodes.drop_last());
        if rest > nodes.last().0 {
            rest
        } else {
            (nodes.last().0 + 1) as nat
        }
    }
}

/// Each of `nodes` has an index below `id_bound(nodes)`.
pub proof fn lemma_id_bound_covers(nodes: Seq<NodeId>)
    ensures
        forall|i: int| 0 <= i < nodes.len() ==> (#[trigger] nodes[i]).0 < id_bound(nodes),
    decreases nodes.len(),
{
    if nodes.len() > 0 {
        let front = nodes.drop_last();
        lemma_id_bound_covers(front);
        assert forall|i: int| 0 <= i < nodes.len() implies (#[trigger] nodes[i]).0 < id_bound(
            nodes,
        ) by {
            if i < nodes.len() - 1 {
                assert(nodes[i] == front[i]);
            }
        }
    }
}

/// No bound on the indices of `nodes` is less than `id_bound(nodes)`.
pub proof fn lemma_id_bound_least(nodes: Seq<NodeId>, bound: nat)
    requires
        forall|i: int| 0 <= i < nodes.len() ==> (#[trigger] nodes[i]).0 < bound,
    ensures
        id_bound(nodes) <= bound,
    decreases nodes.len(),
{
    if nodes.len() > 0 {
        let front = nodes.drop_last();
        assert forall|i: int| 0 <= i < front.len() implies (#[trigger] front[i]).0 < bound by {
            assert(front[i] == nodes[i]);
        }
        lemma_id_bound_least(front, bound);
        assert(nodes[nodes.len() - 1].0 < bound);
    }
}

/// Tests that each of `nodes` has an index below `bound`.
pub fn all_below(nodes: &[NodeId], bound: usize) -> (r: bool)
    ensures
        r == (id_bound(nodes@) <= bound),
{
    let mut i: usize = 0;
    while i < nodes.len()
        invariant
            0 <= i <= nodes@.len(),
            id_bound(nodes@.take(i as int)) <= bound,
        decreases nodes@.len() - i,
    {
        proof {
            let next = nodes@.take(i + 1);
            assert(next.drop_last() =~= nodes@.take(i as int));
            assert(next.last() == nodes@[i as int]);
        }
        if nodes[i].0 >= bound {
            proof {
                lemma_id_bound_covers(nodes@);
            }
            return false;
        }
        i += 1;
    }
    assert(nodes@.take(i as int) =~= nodes@);
    true
}

impl EngineDelta {
    /// A parse result for the source text `contents`, without nodes yet.
    pub fn new(contents: Vec<u8>) -> (delta: EngineDelta)
        ensures
            delta.contents == contents,
            delta.ast_nodes@ == Seq::<AstNode>::empty(),
            delta.span_start@ == Seq::<usize>::empty(),
            delta.span_end@ == Seq::<usize>::empty(),
            delta.float_values@ == Map::<usize, i64>::empty(),
    {
        EngineDelta {
            ast_nodes: Vec::new(),
            contents,
            span_start: Vec::new(),
            span_end: Vec::new(),
            float_values: HashMap::new(),
        }
    }

    /// Adds `node`, which spans the source text from `start` to `end`, and
    /// returns its index.
    pub fn push_node(&mut self, node: AstNode, start: usize, end: usize) -> (id: NodeId)
        ensures
            id.0 == old(self).ast_nodes@.len(),
            final(self).ast_nodes@ == old(self).ast_nodes@.push(node),
            final(self).span_start@ == old(self).span_start@.push(start),
            final(self).span_end@ == old(self).span_end@.push(end),
            final(self).contents == old(self).contents,
            final(self).float_values == old(self).float_values,
    {
        self.ast_nodes.push(node);
        self.span_start.push(start);
        self.span_end.push(end);
        NodeId(self.ast_nodes.len() - 1)
    }

    /// The source text of node `node`, if the node has a span that lies in
    /// the source text.
    pub open spec fn text(&self, node: NodeId) -> Option<Seq<u8>> {
        if node.0 < self.span_start@.len() && node.0 < self.span_end@.len()
            && self.span_start@[node.0 as int] <= self.span_end@[node.0 as int]
            && self.span_end@[node.0 as int] <= self.contents@.len() {
            Some(
                self.contents@.subrange(
                    self.span_start@[node.0 as int] as int,
                    self.span_end@[node.0 as int] as int,
                ),
            )
        } else {
            None
        }
    }

    /// Where the source text of node `node` starts and ends, if the node has
    /// a span that lies in the source text.
    pub fn span(&self, node: NodeId) -> (r: Option<(usize, usize)>)
        ensures
            match r {
                Some((start, end)) => start <= end <= self.contents@.len() && self.text(node)
                    == Some(self.contents@.subrange(start as int, end as int)),
                None => self.text(node) is None,
            },
    {
        if node.0 < self.span_start.len() && node.0 < self.span_end.len() {
            let start = self.span_start[node.0];
            let end = self.span_end[node.0];
            if start <= end && end <= self.contents.len() {
                return Some((start, end));
            }
        }
        None
    }
}

} // verus!
