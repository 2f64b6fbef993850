//! Splicing: a new program that runs one program and then another. The first
//! program's spine is copied; what hangs below its nodes stays shared.

use crate::parser::model::Pat;
use crate::parser::node::chain_view;
use crate::parser::node::link_view;
use crate::parser::node::Node;
use crate::parser::node::NodeVal;
use std::sync::Arc;
use vstd::prelude::*;

verus! {

pub trait AppendNode: Sized {
    /// The pattern that the program stands for.
    spec fn pattern(&self) -> Seq<Pat>;

    /// A program that runs `self` and then `tail`.
    fn with_tail(&self, tail: Self) -> (r: Self)
        ensures
            r.pattern() == self.pattern() + tail.pattern(),
    ;

    /// A program that runs `self` and then `tail`, if there is one.
    fn with_tail_option(&self, tail: Option<Self>) -> (r: Self)
        ensures
            r.pattern() == self.pattern() + (match tail {
                Some(t) => t.pattern(),
                None => Seq::empty(),
            }),
    ;
}

impl AppendNode for Arc<Node> {
    open spec fn pattern(&self) -> Seq<Pat> {
        chain_view(**self)
    }

    fn with_tail_option(&self, tail: Option<Self>) -> (r: Self) {
        (**self).clone().into_mut().append_option_node(&tail).into_node().arc()
    }

    fn with_tail(&self, tail: Self) -> (r: Self) {
        self.with_tail_option(Some(tail))
    }
}

pub trait IntoMutNode {
    spec fn pattern(&self) -> Seq<Pat>;

    /// A copy of the spine that can be extended.
    fn into_mut(self) -> (m: MutNode)
        ensures
            m@ == self.pattern(),
    ;
}

impl IntoMutNode for Node {
    open spec fn pattern(&self) -> Seq<Pat> {
        chain_view(*self)
    }

    fn into_mut(self) -> (m: MutNode) {
        MutNode::from_node(&self)
    }
}

/// A spine of nodes that is owned, so that a node can be put behind its last
/// one.
#[derive(Debug)]
pub struct MutNode {
    pub val: NodeVal,
    pub next: Option<Box<MutNode>>,
}

pub open spec fn mut_view(m: MutNode) -> Seq<Pat>
    decreases m,
{
    seq![m.val@] + (match m.next {
        Some(next) => mut_view(*next),
        None => Seq::empty(),
    })
}

impl View for MutNode {
    type V = Seq<Pat>;

    open spec fn view(&self) -> Seq<Pat> {
        mut_view(*self)
    }
}

impl MutNode {
    /// The last node of the spine.
    pub fn tail(&self) -> (t: &MutNode)
        ensures
            t.next is None,
            t.val@ == self@.last(),
        decreases self,
    {
        match &self.next {
            None => self,
            Some(next) => {
                let t = next.tail();
                assert(self@.last() == next@.last());
                t
            },
        }
    }

    /// The spine with `node` behind its last node.
    pub fn append(self, node: MutNode) -> (r: Self)
        ensures
            r@ == self@ + node@,
        decreases self,
    {
        let MutNode { val, next } = self;
        let rest = match next {
            None => node,
            Some(n) => (*n).append(node),
        };
        let r = MutNode { val, next: Some(Box::new(rest)) };
        assert(r@ =~= self@ + node@);
        r
    }

    /// The spine with a copy of the program behind `next` after its last node.
    pub fn append_option_node(self, next: &Option<Arc<Node>>) -> (r: Self)
        ensures
            r@ == self@ + link_view(*next),
    {
        match next {
            None => {
                assert(self@ + Seq::<Pat>::empty() =~= self@);
                self
            },
            Some(n) => self.append(MutNode::from_node(n)),
        }
    }

    /// The spine as an immutable program.
    pub fn into_node(self) -> (n: Node)
        ensures
            n@ == self@,
        decreases self,
    {
        let MutNode { val, next } = self;
        match next {
            None => Node { val, next: None },
            Some(m) => Node { val, next: Some((*m).into_node().arc()) },
        }
    }

    /// A copy of the spine that begins at `node`.
    pub fn from_node(node: &Node) -> (m: Self)
        ensures
            m@ == node@,
        decreases node,
    {
        match &node.next {
            None => MutNode { val: node.val.clone(), next: None },
            Some(n) => MutNode { val: node.val.clone(), next: Some(Box::new(MutNode::from_node(n))) },
        }
    }
}

pub trait IntoSmartPointer: Sized {
    /// The value behind a shared pointer.
    fn arc(self) -> (r: Arc<Self>)
        ensures
            *r == self,
    {
        Arc::new(self)
    }
}

impl<A> IntoSmartPointer for A {
}

} // verus!
