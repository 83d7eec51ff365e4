//! Expressions over a language of operators with child ids.
use vstd::prelude::*;

verus! {

/// The id of a node: its position in an expression, or an e-class.
#[derive(Clone, Copy, PartialEq, Eq, Structural, Debug, Hash)]
pub struct Id(pub usize);

/// The ids `0, 1, ..., k - 1`, in order.
pub open spec fn ids_upto(k: nat) -> Seq<Id> {
    Seq::new(k, |j: int| Id(j as usize))
}

/// A node of a language: an operator applied to child ids. The language is
/// defined by its user, who describes the children and the operator of each
/// node with the spec functions below.
pub trait Language: Sized + Clone {
    /// The children of the node, in order.
    spec fn spec_children(&self) -> Seq<Id>;

    /// `other` is this node, up to its children.
    spec fn spec_same_but_children(&self, other: &Self) -> bool;

    /// The number that identifies the node's operator.
    spec fn spec_op_id(&self) -> usize;

    /// The children of the node.
    fn children(&self) -> (res: &[Id])
        ensures
            res@ == self.spec_children(),
    ;

    /// The children of the node, to be written in place.
    fn children_mut(&mut self) -> (res: &mut [Id])
        ensures
            res@ == old(self).spec_children(),
            final(self).spec_children() == final(res)@,
            old(self).spec_same_but_children(&*final(self)),
    ;

    /// The number that identifies the node's operator.
    fn op_id(&self) -> (res: usize)
        ensures
            res == self.spec_op_id(),
    ;
}

/// A node made of an operator number and child ids.
#[derive(Debug, PartialEq, Eq)]
pub struct SimpleNode {
    pub op: usize,
    pub children: Vec<Id>,
}

impl Clone for SimpleNode {
    /// The same operator with the same children.
    fn clone(&self) -> (res: Self)
        ensures
            res.op == self.op,
            res.children@ == self.children@,
    {
        let mut children: Vec<Id> = Vec::new();
        for i in 0..self.children.len()
            invariant
                children@ == self.children@.take(i as int),
        {
            children.push(self.children[i]);
            assert(children@ =~= self.children@.take(i + 1));
        }
        assert(self.children@.take(self.children@.len() as int) =~= self.children@);
        SimpleNode { op: self.op, children }
    }
}

impl Language for SimpleNode {
    open spec fn spec_children(&self) -> Seq<Id> {
        self.children@
    }

    open spec fn spec_same_but_children(&self, other: &Self) -> bool {
        self.op == other.op
    }

    open spec fn spec_op_id(&self) -> usize {
        self.op
    }

    fn children(&self) -> (res: &[Id]) {
        self.children.as_slice()
    }

    fn children_mut(&mut self) -> (res: &mut [Id]) {
        self.children.as_mut_slice()
    }

    fn op_id(&self) -> (res: usize) {
        self.op
    }
}

/// A clone of a simple node has the same operator and the same children.
pub proof fn simple_node_cloned(a: SimpleNode, b: SimpleNode)
    requires
        cloned(a, b),
    ensures
        b.op == a.op,
        b.children@ == a.children@,
{
}

/// An expression: nodes whose children point to nodes before them.
pub struct RecExpr<L> {
    pub nodes: Vec<L>,
}

impl<L> RecExpr<L> {
    /// The empty expression.
    pub fn new() -> (res: Self)
        ensures
            res.nodes@ == Seq::<L>::empty(),
    {
        RecExpr { nodes: Vec::new() }
    }

    /// Adds a node at the end and returns its id.
    pub fn add(&mut self, node: L) -> (id: Id)
        ensures
            final(self).nodes@ == old(self).nodes@.push(node),
            id == Id(old(self).nodes@.len() as usize),
    {
        self.nodes.push(node);
        Id(self.nodes.len() - 1)
    }
}

/// Numbers the ids in place: the `j`-th becomes `j`.
pub fn number_ids(ids: &mut [Id])
    ensures
        final(ids)@ == ids_upto(old(ids)@.len()),
{
    let n = ids.len();
    for j in 0..n
        invariant
            n == ids@.len(),
            forall|m: int| 0 <= m < j ==> ids@[m] == Id(m as usize),
    {
        ids[j] = Id(j);
    }
    assert(ids@ =~= ids_upto(n as nat));
}

} // verus!
