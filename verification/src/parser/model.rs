//! The mathematical form of a pattern. Contracts speak of these values; the
//! executable trees are viewed as them.

use vstd::prelude::*;

verus! {

/// How a group treats what it matched.
pub enum GroupKind {
    /// A group without a name and without a position: nothing is stored for
    /// it. No parser gives such a group.
    Unnamed,
    /// `(?: )`.
    NonCapturing,
    /// `(?<name> )`.
    Named(Seq<char>),
    /// A plain `( )`: what it matched is stored under its position among the
    /// capturing groups of the pattern, counted from 1 by their opening
    /// brackets.
    Numbered(nat),
}

/// The decimal digit that stands for `d`.
pub open spec fn digit_char(d: nat) -> char {
    if d == 0 {
        '0'
    } else if d == 1 {
        '1'
    } else if d == 2 {
        '2'
    } else if d == 3 {
        '3'
    } else if d == 4 {
        '4'
    } else if d == 5 {
        '5'
    } else if d == 6 {
        '6'
    } else if d == 7 {
        '7'
    } else if d == 8 {
        '8'
    } else {
        '9'
    }
}

/// A number in decimal digits.
pub open spec fn decimal(n: nat) -> Seq<char>
    decreases n,
{
    if n < 10 {
        seq![digit_char(n)]
    } else {
        decimal(n / 10).push(digit_char(n % 10))
    }
}

/// The name under which a group's capture is stored, if it is stored.
pub open spec fn capture_name(kind: GroupKind) -> Option<Seq<char>> {
    match kind {
        GroupKind::Named(name) => Some(name),
        GroupKind::Numbered(position) => Some(decimal(position)),
        _ => None,
    }
}

/// One construct of a pattern. A pattern is a sequence of them, matched one
/// after the other.
pub enum Pat {
    Poisoned,
    Word(Seq<char>),
    Any,
    ZeroOrMore { body: Seq<Pat>, greedy: bool },
    OneOrMore { body: Seq<Pat>, greedy: bool },
    Start,
    End,
    Optional(Seq<Pat>),
    Group { body: Seq<Pat>, kind: GroupKind },
    GroupEnd { start: usize, kind: GroupKind },
    CharSet { members: Seq<char>, inverted: bool },
    Or { left: Seq<Pat>, right: Seq<Pat> },
    RepetitionRange { min: u32, max: Option<u32>, body: Seq<Pat> },
}

/// Whether a pattern holds no mark of a group's end, at any depth. The parser
/// gives such patterns; the marks come and go while a pattern is run.
pub open spec fn plain(p: Seq<Pat>) -> bool
    decreases p, 0nat,
{
    forall|i: int| 0 <= i < p.len() ==> plain_pat(#[trigger] p[i])
}

pub open spec fn plain_pat(p: Pat) -> bool
    decreases p, 1nat,
{
    match p {
        Pat::ZeroOrMore { body, .. } => plain(body),
        Pat::OneOrMore { body, .. } => plain(body),
        Pat::Optional(body) => plain(body),
        Pat::Group { body, .. } => plain(body),
        Pat::Or { left, right } => plain(left) && plain(right),
        Pat::RepetitionRange { body, .. } => plain(body),
        Pat::GroupEnd { .. } => false,
        _ => true,
    }
}

/// A measure of a pattern that shrinks whenever the executor replaces a
/// construct by what it stands for.
pub open spec fn weight(p: Seq<Pat>) -> nat
    decreases p, 0nat,
{
    if p.len() == 0 {
        0
    } else {
        pat_weight(p[0]) + weight(p.drop_first())
    }
}

pub open spec fn pat_weight(p: Pat) -> nat
    decreases p, 1nat,
{
    match p {
        Pat::ZeroOrMore { body, .. } => 1 + weight(body),
        Pat::OneOrMore { body, .. } => 1 + weight(body),
        Pat::Optional(body) => 1 + weight(body),
        Pat::Group { body, .. } => 2 + weight(body),
        Pat::Or { left, right } => 1 + weight(left) + weight(right),
        Pat::RepetitionRange { body, .. } => 2 + weight(body),
        _ => 1,
    }
}

/// The weight of a pattern that is not empty, spelled out for its first
/// construct.
pub proof fn lemma_weight_first(p: Seq<Pat>)
    requires
        p.len() > 0,
    ensures
        weight(p) == pat_weight(p[0]) + weight(p.drop_first()),
        pat_weight(p[0]) >= 1,
        pat_weight(p[0]) == (match p[0] {
            Pat::ZeroOrMore { body, .. } => 1 + weight(body),
            Pat::OneOrMore { body, .. } => 1 + weight(body),
            Pat::Optional(body) => 1 + weight(body),
            Pat::Group { body, .. } => 2 + weight(body),
            Pat::Or { left, right } => 1 + weight(left) + weight(right),
            Pat::RepetitionRange { body, .. } => 2 + weight(body),
            _ => 1,
        }),
{
    reveal_with_fuel(weight, 2);
    reveal_with_fuel(pat_weight, 2);
}

/// The weight of a pattern of one construct.
pub proof fn lemma_weight_one(p: Pat)
    ensures
        weight(seq![p]) == pat_weight(p),
{
    lemma_weight_first(seq![p]);
    assert(seq![p].drop_first() =~= Seq::<Pat>::empty());
    assert(weight(Seq::<Pat>::empty()) == 0);
}

pub proof fn lemma_weight_concat(a: Seq<Pat>, b: Seq<Pat>)
    ensures
        weight(a + b) == weight(a) + weight(b),
    decreases a.len(),
{
    if a.len() == 0 {
        assert(a + b =~= b);
    } else {
        assert((a + b).drop_first() =~= a.drop_first() + b);
        lemma_weight_concat(a.drop_first(), b);
    }
}

} // verus!
