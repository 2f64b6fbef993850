//! The program that the executor runs: immutable nodes, shared by reference,
//! each with a link to the node that follows it.

use super::model::GroupKind;
use super::model::Pat;
use super::parse_node::ParseNode;
use super::parse_node::ParseNodeVal;
use super::ParseError;
use crate::ordered::set_clone;
use crate::ordered::set_items;
use indexmap::IndexSet;
use std::sync::Arc;
use vstd::prelude::*;

verus! {

/// What stands behind the `(` of a group that is more than a plain group.
#[derive(Debug)]
pub enum GroupConfig {
    NonCapturing,
    Named(String),
    /// A group without a name, with its position among the capturing groups.
    Numbered(usize),
}

/// One node of a program, and the node that follows it.
#[derive(Debug)]
pub struct Node {
    pub val: NodeVal,
    pub next: Option<Arc<Node>>,
}

#[derive(Debug)]
pub enum NodeVal {
    /// A placeholder that no parser produces; to run into it is an error.
    Poisoned,
    Word(String),
    Any,
    ZeroOrMore { node: Arc<Node>, greedy: bool },
    OneOrMore { node: Arc<Node>, greedy: bool },
    Start,
    End,
    Optional(Arc<Node>),
    Group { group: Arc<Node>, cfg: Option<GroupConfig> },
    /// Marks where a group ends while the group is being matched; `start` is
    /// the offset at which the group began.
    GroupEnd { start: usize, cfg: Option<GroupConfig> },
    CharSet { set: IndexSet<char>, inverted: bool },
    Or { left: Arc<Node>, right: Arc<Node> },
    RepetitionRange { min: u32, max: Option<u32>, node: Arc<Node> },
}

pub open spec fn kind_view(cfg: Option<GroupConfig>) -> GroupKind {
    match cfg {
        None => GroupKind::Unnamed,
        Some(GroupConfig::NonCapturing) => GroupKind::NonCapturing,
        Some(GroupConfig::Named(name)) => GroupKind::Named(name@),
        Some(GroupConfig::Numbered(position)) => GroupKind::Numbered(position as nat),
    }
}

/// The pattern that a node and the nodes after it stand for.
pub open spec fn chain_view(n: Node) -> Seq<Pat>
    decreases n, 1nat,
{
    seq![val_view(n.val)] + (match n.next {
        Some(next) => chain_view(*next),
        None => Seq::empty(),
    })
}

pub open spec fn val_view(v: NodeVal) -> Pat
    decreases v, 0nat,
{
    match v {
        NodeVal::Poisoned => Pat::Poisoned,
        NodeVal::Word(word) => Pat::Word(word@),
        NodeVal::Any => Pat::Any,
        NodeVal::ZeroOrMore { node, greedy } => Pat::ZeroOrMore { body: chain_view(*node), greedy },
        NodeVal::OneOrMore { node, greedy } => Pat::OneOrMore { body: chain_view(*node), greedy },
        NodeVal::Start => Pat::Start,
        NodeVal::End => Pat::End,
        NodeVal::Optional(node) => Pat::Optional(chain_view(*node)),
        NodeVal::Group { group, cfg } => Pat::Group { body: chain_view(*group), kind: kind_view(cfg) },
        NodeVal::GroupEnd { start, cfg } => Pat::GroupEnd { start, kind: kind_view(cfg) },
        NodeVal::CharSet { set, inverted } => Pat::CharSet { members: set_items(set), inverted },
        NodeVal::Or { left, right } => Pat::Or { left: chain_view(*left), right: chain_view(*right) },
        NodeVal::RepetitionRange { min, max, node } => Pat::RepetitionRange {
            min,
            max,
            body: chain_view(*node),
        },
    }
}

/// The pattern behind a link: nothing where the link is empty.
pub open spec fn link_view(link: Option<Arc<Node>>) -> Seq<Pat> {
    match link {
        Some(n) => chain_view(*n),
        None => Seq::empty(),
    }
}

/// The pattern behind a shared node.
pub open spec fn body_view(n: &Arc<Node>) -> Seq<Pat> {
    chain_view(**n)
}

/// The pattern behind the node that follows a shared node.
pub open spec fn next_view(n: &Arc<Node>) -> Seq<Pat> {
    link_view(n.next)
}

impl View for Node {
    type V = Seq<Pat>;

    open spec fn view(&self) -> Seq<Pat> {
        chain_view(*self)
    }
}

impl View for NodeVal {
    type V = Pat;

    open spec fn view(&self) -> Pat {
        val_view(*self)
    }
}

/// `Arc::clone`: another handle to the same node.
#[verifier::external_body]
pub(crate) fn share(n: &Arc<Node>) -> (r: Arc<Node>)
    ensures
        r == *n,
{
    Arc::clone(n)
}

/// A copy of a link that shares the node behind it.
pub(crate) fn share_link(link: &Option<Arc<Node>>) -> (r: Option<Arc<Node>>)
    ensures
        r == *link,
{
    match link {
        Some(n) => Some(share(n)),
        None => None,
    }
}

impl Clone for GroupConfig {
    fn clone(&self) -> (r: Self)
        ensures
            kind_view(Some(r)) == kind_view(Some(*self)),
    {
        match self {
            GroupConfig::NonCapturing => GroupConfig::NonCapturing,
            GroupConfig::Named(name) => GroupConfig::Named(name.clone()),
            GroupConfig::Numbered(position) => GroupConfig::Numbered(*position),
        }
    }
}

pub fn clone_cfg(cfg: &Option<GroupConfig>) -> (r: Option<GroupConfig>)
    ensures
        kind_view(r) == kind_view(*cfg),
{
    match cfg {
        Some(c) => Some(c.clone()),
        None => None,
    }
}

impl Clone for NodeVal {
    fn clone(&self) -> (r: Self)
        ensures
            r@ == self@,
    {
        match self {
            NodeVal::Poisoned => NodeVal::Poisoned,
            NodeVal::Word(word) => NodeVal::Word(word.clone()),
            NodeVal::Any => NodeVal::Any,
            NodeVal::ZeroOrMore { node, greedy } => NodeVal::ZeroOrMore { node: share(node), greedy: *greedy },
            NodeVal::OneOrMore { node, greedy } => NodeVal::OneOrMore { node: share(node), greedy: *greedy },
            NodeVal::Start => NodeVal::Start,
            NodeVal::End => NodeVal::End,
            NodeVal::Optional(node) => NodeVal::Optional(share(node)),
            NodeVal::Group { group, cfg } => NodeVal::Group { group: share(group), cfg: clone_cfg(cfg) },
            NodeVal::GroupEnd { start, cfg } => NodeVal::GroupEnd { start: *start, cfg: clone_cfg(cfg) },
            NodeVal::CharSet { set, inverted } => NodeVal::CharSet { set: set_clone(set), inverted: *inverted },
            NodeVal::Or { left, right } => NodeVal::Or { left: share(left), right: share(right) },
            NodeVal::RepetitionRange { min, max, node } => NodeVal::RepetitionRange {
                min: *min,
                max: *max,
                node: share(node),
            },
        }
    }
}

impl Clone for Node {
    fn clone(&self) -> (r: Self)
        ensures
            r@ == self@,
    {
        Node { val: self.val.clone(), next: share_link(&self.next) }
    }
}

impl Node {
    /// Lowers a parsed tree to a program. An owned tree cannot hold a cycle, so
    /// this always succeeds.
    pub fn try_from(parsed: ParseNode) -> (r: Result<Node, ParseError>)
        ensures
            r is Ok,
            r.unwrap()@ == parsed@,
        decreases parsed, 1nat,
    {
        let ParseNode { val, next } = parsed;
        let val = lower_val(val)?;
        let next = match next {
            None => None,
            Some(n) => Some(Arc::new(Node::try_from(*n)?)),
        };
        Ok(Node { val, next })
    }
}

/// Lowers the subtree behind a pointer of the parsed tree.
fn lower_box(b: Box<ParseNode>) -> (r: Result<Arc<Node>, ParseError>)
    ensures
        r is Ok,
        chain_view(*r.unwrap()) == b@,
    decreases b, 2nat,
{
    Ok(Arc::new(Node::try_from(*b)?))
}

/// Lowers one value of the parsed tree, with what hangs below it.
fn lower_val(val: ParseNodeVal) -> (r: Result<NodeVal, ParseError>)
    ensures
        r is Ok,
        r.unwrap()@ == val@,
    decreases val, 0nat,
{
    Ok(
        match val {
            ParseNodeVal::Poisoned => NodeVal::Poisoned,
            ParseNodeVal::Word(word) => NodeVal::Word(word),
            ParseNodeVal::Any => NodeVal::Any,
            ParseNodeVal::ZeroOrMore { node, greedy } => NodeVal::ZeroOrMore { node: lower_box(node)?, greedy },
            ParseNodeVal::OneOrMore { node, greedy } => NodeVal::OneOrMore { node: lower_box(node)?, greedy },
            ParseNodeVal::Start => NodeVal::Start,
            ParseNodeVal::End => NodeVal::End,
            ParseNodeVal::Optional(node) => NodeVal::Optional(lower_box(node)?),
            ParseNodeVal::Group { group, cfg } => NodeVal::Group { group: lower_box(group)?, cfg },
            ParseNodeVal::CharSet { set, inverted } => NodeVal::CharSet { set, inverted },
            ParseNodeVal::Or { left, right } => NodeVal::Or { left: lower_box(left)?, right: lower_box(right)? },
            ParseNodeVal::RepetitionRange { min, max, node } => NodeVal::RepetitionRange {
                min,
                max,
                node: lower_box(node)?,
            },
        },
    )
}

} // verus!
