//! The tree that the parser builds, before it is lowered to a program.

use super::model::Pat;
use super::node::kind_view;
use super::node::GroupConfig;
use crate::ordered::set_items;
use indexmap::IndexSet;
use vstd::prelude::*;

verus! {

/// One node of the parsed tree, and the node that follows it.
#[derive(Debug)]
pub struct ParseNode {
    pub val: ParseNodeVal,
    pub next: Option<Box<ParseNode>>,
}

#[derive(Debug)]
pub enum ParseNodeVal {
    /// A placeholder that no parser produces.
    Poisoned,
    Word(String),
    Any,
    ZeroOrMore { node: Box<ParseNode>, greedy: bool },
    OneOrMore { node: Box<ParseNode>, greedy: bool },
    Start,
    End,
    Optional(Box<ParseNode>),
    Group { group: Box<ParseNode>, cfg: Option<GroupConfig> },
    CharSet { set: IndexSet<char>, inverted: bool },
    Or { left: Box<ParseNode>, right: Box<ParseNode> },
    RepetitionRange { min: u32, max: Option<u32>, node: Box<ParseNode> },
}

/// The pattern that a parsed node and the nodes after it stand for.
pub open spec fn parsed_chain_view(n: ParseNode) -> Seq<Pat>
    decreases n, 1nat,
{
    seq![parsed_val_view(n.val)] + (match n.next {
        Some(next) => parsed_chain_view(*next),
        None => Seq::empty(),
    })
}

pub open spec fn parsed_val_view(v: ParseNodeVal) -> Pat
    decreases v, 0nat,
{
    match v {
        ParseNodeVal::Poisoned => Pat::Poisoned,
        ParseNodeVal::Word(word) => Pat::Word(word@),
        ParseNodeVal::Any => Pat::Any,
        ParseNodeVal::ZeroOrMore { node, greedy } => Pat::ZeroOrMore { body: parsed_chain_view(*node), greedy },
        ParseNodeVal::OneOrMore { node, greedy } => Pat::OneOrMore { body: parsed_chain_view(*node), greedy },
        ParseNodeVal::Start => Pat::Start,
        ParseNodeVal::End => Pat::End,
        ParseNodeVal::Optional(node) => Pat::Optional(parsed_chain_view(*node)),
        ParseNodeVal::Group { group, cfg } => Pat::Group { body: parsed_chain_view(*group), kind: kind_view(cfg) },
        ParseNodeVal::CharSet { set, inverted } => Pat::CharSet { members: set_items(set), inverted },
        ParseNodeVal::Or { left, right } => Pat::Or {
            left: parsed_chain_view(*left),
            right: parsed_chain_view(*right),
        },
        ParseNodeVal::RepetitionRange { min, max, node } => Pat::RepetitionRange {
            min,
            max,
            body: parsed_chain_view(*node),
        },
    }
}

/// The pattern behind a link of the parsed tree: nothing where it is empty.
pub open spec fn parsed_link_view(link: Option<Box<ParseNode>>) -> Seq<Pat> {
    match link {
        Some(n) => parsed_chain_view(*n),
        None => Seq::empty(),
    }
}

/// The patterns that a list of parsed values stand for, one for one.
pub open spec fn vals_view(vals: Seq<ParseNodeVal>) -> Seq<Pat> {
    Seq::new(vals.len(), |i: int| parsed_val_view(vals[i]))
}

impl View for ParseNode {
    type V = Seq<Pat>;

    open spec fn view(&self) -> Seq<Pat> {
        parsed_chain_view(*self)
    }
}

impl View for ParseNodeVal {
    type V = Pat;

    open spec fn view(&self) -> Pat {
        parsed_val_view(*self)
    }
}

/// The values as a chain, each node linked to the one after it.
pub fn link_nodes(vals: Vec<ParseNodeVal>) -> (head: Option<Box<ParseNode>>)
    ensures
        parsed_link_view(head) == vals_view(vals@),
        head is Some <==> vals@.len() > 0,
{
    let mut vals = vals;
    let mut head: Option<Box<ParseNode>> = None;
    let ghost all = vals@;
    while vals.len() > 0
        invariant
            vals@.len() <= all.len(),
            vals@ == all.take(vals@.len() as int),
            parsed_link_view(head) == vals_view(all).skip(vals@.len() as int),
            head is Some <==> vals@.len() < all.len(),
        decreases vals.len(),
    {
        let ghost before = vals@;
        let v = vals.pop().unwrap();
        let node = ParseNode { val: v, next: head };
        assert(parsed_chain_view(node) =~= vals_view(all).skip(before.len() - 1)) by {
            assert(v == all[before.len() - 1]);
            assert(vals_view(all).skip(before.len() - 1) =~= seq![parsed_val_view(v)] + vals_view(all).skip(
                before.len() as int,
            ));
        }
        head = Some(Box::new(node));
    }
    assert(vals_view(all).skip(0) =~= vals_view(all));
    head
}

} // verus!
