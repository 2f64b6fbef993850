//! Programs and errors as text, for the eyes of a reader.

use super::model::decimal;
use super::model::digit_char;
use super::model::GroupKind;
use super::model::Pat;
use super::node::chain_view;
use super::node::kind_view;
use super::node::link_view;
use super::node::GroupConfig;
use super::node::Node;
use super::node::NodeVal;
use super::reader::digit_of;
use super::ParseError;
use super::ParseErrorWithContext;
use super::ParseResult;
use crate::ordered::set_get_index;
use crate::ordered::set_items;
use crate::ordered::set_len;
use indexmap::IndexSet;
use std::sync::Arc;
use vstd::prelude::*;
use vstd::string::StringExecFns;

verus! {

/// The first `count` members of a character class, each in quotes, with
/// commas between them.
pub open spec fn members_text(members: Seq<char>, count: int) -> Seq<char>
    decreases count,
{
    if count <= 0 {
        Seq::empty()
    } else if count == 1 {
        "'"@ + seq![members[0]] + "'"@
    } else {
        members_text(members, count - 1) + ", "@ + "'"@ + seq![members[count - 1]] + "'"@
    }
}

/// How a group's kind is written behind the opening bracket.
pub open spec fn kind_text(kind: GroupKind) -> Seq<char> {
    match kind {
        GroupKind::Unnamed => Seq::empty(),
        GroupKind::NonCapturing => "?:"@,
        GroupKind::Named(name) => "<"@ + name + ">"@,
        GroupKind::Numbered(_) => Seq::empty(),
    }
}

/// The mark behind a lazy quantifier.
pub open spec fn lazy_text(greedy: bool) -> Seq<char> {
    if greedy {
        Seq::empty()
    } else {
        "?"@
    }
}

/// A pattern as text: its constructs, with `->` between them.
pub open spec fn pattern_text(p: Seq<Pat>) -> Seq<char>
    decreases p, 0nat,
{
    if p.len() == 0 {
        Seq::empty()
    } else if p.len() == 1 {
        pat_text(p[0])
    } else {
        pat_text(p[0]) + "->"@ + pattern_text(p.drop_first())
    }
}

/// One construct as text.
pub open spec fn pat_text(p: Pat) -> Seq<char>
    decreases p, 1nat,
{
    match p {
        Pat::Poisoned => "!!poison!!"@,
        Pat::Word(word) => "'"@ + word + "'"@,
        Pat::Any => "."@,
        Pat::ZeroOrMore { body, greedy } => pattern_text(body) + "*"@ + lazy_text(greedy),
        Pat::OneOrMore { body, greedy } => pattern_text(body) + "+"@ + lazy_text(greedy),
        Pat::Start => "^"@,
        Pat::End => "$"@,
        Pat::Optional(body) => pattern_text(body) + "?"@,
        Pat::Group { body, kind } => "("@ + kind_text(kind) + pattern_text(body) + ")"@,
        Pat::GroupEnd { .. } => "(/)"@,
        Pat::CharSet { members, inverted } => "["@ + (if inverted {
            "^"@
        } else {
            Seq::empty()
        }) + members_text(members, members.len() as int) + "]"@,
        Pat::Or { left, right } => "<"@ + pattern_text(left) + ">|<"@ + pattern_text(right) + ">"@,
        Pat::RepetitionRange { min, max, body } => pattern_text(body) + "{"@ + decimal(min as nat) + (match max {
            Some(hi) => ","@ + decimal(hi as nat),
            None => Seq::empty(),
        }) + "}"@,
    }
}

/// What an error says.
pub open spec fn error_text(err: ParseError) -> Seq<char> {
    match err {
        ParseError::UnexpectedCharErr(ch) => "unexpected char '"@ + seq![ch] + "'"@,
        ParseError::UnterminatedCharSet => "unterminated character set"@,
        ParseError::EmptyCaptureGroup => "empty capture group"@,
        ParseError::MissingCharacterToEscape => "missing character to escape"@,
        ParseError::MissingRightSideOfOr => "missing right side of or"@,
        ParseError::BadGroupConfig => "bad group config"@,
        ParseError::MissingRepetitionRangeMin => "missing repetition range min"@,
        ParseError::UnexpectedRepetitionRangeCh(ch) => "unexpected char '"@ + seq![ch] + "' in repetition range"@,
        ParseError::MissingLeftSideOfModifier => "missing left side of modifier"@,
        ParseError::UnexpectedEmptyParseNodeOption => "internal: unexpected unwrap of Option<Rc<RefCell<ParseNode>>>"@,
        ParseError::ParseGraphCycle => "found reference cycle in parse graph"@,
        ParseError::UnexpectedEndOfInput => "found unexpected end of input"@,
    }
}

/// `count` spaces.
pub open spec fn spaces(count: int) -> Seq<char>
    decreases count,
{
    if count <= 0 {
        Seq::empty()
    } else {
        spaces(count - 1) + " "@
    }
}

/// An error with its place: what it says, the index, the pattern, and a caret
/// below the character before the index.
pub open spec fn context_text(err: ParseError, pattern: Seq<char>, cur: nat) -> Seq<char> {
    error_text(err) + " at :"@ + decimal(cur) + "\n"@ + pattern + "\n"@ + spaces(cur - 1) + "^"@
}

/// Appends a number in decimal digits.
pub fn push_decimal(out: &mut String, n: usize)
    ensures
        final(out)@ == old(out)@ + decimal(n as nat),
    decreases n,
{
    if n >= 10 {
        push_decimal(out, n / 10);
    }
    out.push(digit_of((n % 10) as u32));
    proof {
        if n < 10 {
            assert(old(out)@.push(digit_char(n as nat)) =~= old(out)@ + decimal(n as nat));
        } else {
            assert((old(out)@ + decimal((n / 10) as nat)).push(digit_char((n % 10) as nat)) =~= old(out)@ + decimal(
                n as nat,
            ));
        }
    }
}

/// Appends the members of a character class.
pub fn push_members(out: &mut String, set: &IndexSet<char>)
    ensures
        final(out)@ == old(out)@ + members_text(set_items(*set), set_items(*set).len() as int),
{
    let n = set_len(set);
    let ghost members = set_items(*set);
    let ghost before = out@;
    let mut k: usize = 0;
    assert(out@ =~= before + members_text(members, 0));
    while k < n
        invariant
            k <= n,
            n == members.len(),
            members == set_items(*set),
            out@ == before + members_text(members, k as int),
        decreases n - k,
    {
        let c = match set_get_index(set, k) {
            Some(c) => c,
            None => ' ',
        };
        if k > 0 {
            out.append(", ");
        }
        out.append("'");
        out.push(c);
        out.append("'");
        proof {
            if k == 0 {
                assert(out@ =~= before + ("'"@ + seq![members[0]] + "'"@));
            } else {
                assert(out@ =~= before + (members_text(members, k as int) + ", "@ + "'"@ + seq![members[k as int]]
                    + "'"@));
            }
        }
        k += 1;
    }
}

/// Appends a group's kind.
pub fn push_kind(out: &mut String, cfg: &Option<GroupConfig>)
    ensures
        final(out)@ == old(out)@ + kind_text(kind_view(*cfg)),
{
    match cfg {
        None => {
            assert(out@ + Seq::<char>::empty() =~= out@);
        },
        Some(GroupConfig::Named(name)) => {
            out.append("<");
            out.append(name.as_str());
            out.append(">");
            assert(out@ =~= old(out)@ + ("<"@ + name@ + ">"@));
        },
        Some(GroupConfig::NonCapturing) => {
            out.append("?:");
        },
        Some(GroupConfig::Numbered(_)) => {
            assert(out@ + Seq::<char>::empty() =~= out@);
        },
    }
}

/// Appends the mark of a lazy quantifier.
pub fn push_lazy(out: &mut String, greedy: bool)
    ensures
        final(out)@ == old(out)@ + lazy_text(greedy),
{
    if !greedy {
        out.append("?");
    } else {
        assert(out@ + Seq::<char>::empty() =~= out@);
    }
}

/// The text of a pattern that is not empty, spelled out.
pub proof fn lemma_pattern_text(p: Seq<Pat>)
    requires
        p.len() > 0,
    ensures
        pattern_text(p) == (if p.len() == 1 {
            pat_text(p[0])
        } else {
            pat_text(p[0]) + "->"@ + pattern_text(p.drop_first())
        }),
{
    reveal_with_fuel(pattern_text, 2);
}

impl Node {
    /// Appends the text of this node and of those behind it.
    pub fn write_text(&self, out: &mut String)
        ensures
            final(out)@ == old(out)@ + pattern_text(self@),
        decreases self, 1nat,
    {
        let ghost before = out@;
        self.val.write_text(out);
        proof {
            lemma_pattern_text(self@);
            assert(self@[0] == self.val@);
            assert(self@.drop_first() =~= link_view(self.next));
        }
        match &self.next {
            None => {
                assert(self@.len() == 1);
            },
            Some(next) => {
                assert(self@.len() > 1);
                out.append("->");
                next.write_text(out);
                assert(out@ =~= before + (pat_text(self.val@) + "->"@ + pattern_text(link_view(self.next))));
            },
        }
    }

    /// This node and those behind it as text.
    pub fn to_text(&self) -> (out: String)
        ensures
            out@ == pattern_text(self@),
    {
        let mut out = String::new();
        self.write_text(&mut out);
        assert(Seq::<char>::empty() + pattern_text(self@) =~= pattern_text(self@));
        out
    }
}

/// The text of a construct, spelled out.
pub proof fn lemma_pat_text(p: Pat)
    ensures
        pat_text(p) == (match p {
            Pat::Poisoned => "!!poison!!"@,
            Pat::Word(word) => "'"@ + word + "'"@,
            Pat::Any => "."@,
            Pat::ZeroOrMore { body, greedy } => pattern_text(body) + "*"@ + lazy_text(greedy),
            Pat::OneOrMore { body, greedy } => pattern_text(body) + "+"@ + lazy_text(greedy),
            Pat::Start => "^"@,
            Pat::End => "$"@,
            Pat::Optional(body) => pattern_text(body) + "?"@,
            Pat::Group { body, kind } => "("@ + kind_text(kind) + pattern_text(body) + ")"@,
            Pat::GroupEnd { .. } => "(/)"@,
            Pat::CharSet { members, inverted } => "["@ + (if inverted {
                "^"@
            } else {
                Seq::empty()
            }) + members_text(members, members.len() as int) + "]"@,
            Pat::Or { left, right } => "<"@ + pattern_text(left) + ">|<"@ + pattern_text(right) + ">"@,
            Pat::RepetitionRange { min, max, body } => pattern_text(body) + "{"@ + decimal(min as nat) + (match max {
                Some(hi) => ","@ + decimal(hi as nat),
                None => Seq::empty(),
            }) + "}"@,
        }),
{
    reveal_with_fuel(pat_text, 2);
}

/// Appends a repeated body and the mark of its quantifier.
fn write_repeated(node: &Arc<Node>, mark: &str, greedy: bool, out: &mut String)
    ensures
        final(out)@ == old(out)@ + (pattern_text(chain_view(**node)) + mark@ + lazy_text(greedy)),
    decreases node, 2nat,
{
    node.write_text(out);
    out.append(mark);
    push_lazy(out, greedy);
    assert(out@ =~= old(out)@ + (pattern_text(chain_view(**node)) + mark@ + lazy_text(greedy)));
}

/// Appends a group.
fn write_group(group: &Arc<Node>, cfg: &Option<GroupConfig>, out: &mut String)
    ensures
        final(out)@ == old(out)@ + ("("@ + kind_text(kind_view(*cfg)) + pattern_text(chain_view(**group)) + ")"@),
    decreases group, 2nat,
{
    out.append("(");
    push_kind(out, cfg);
    group.write_text(out);
    out.append(")");
    assert(out@ =~= old(out)@ + ("("@ + kind_text(kind_view(*cfg)) + pattern_text(chain_view(**group)) + ")"@));
}

/// Appends a character class.
fn write_set(set: &IndexSet<char>, inverted: bool, out: &mut String)
    ensures
        final(out)@ == old(out)@ + ("["@ + (if inverted {
            "^"@
        } else {
            Seq::empty()
        }) + members_text(set_items(*set), set_items(*set).len() as int) + "]"@),
{
    out.append("[");
    if inverted {
        out.append("^");
    }
    push_members(out, set);
    out.append("]");
    assert(out@ =~= old(out)@ + ("["@ + (if inverted {
        "^"@
    } else {
        Seq::empty()
    }) + members_text(set_items(*set), set_items(*set).len() as int) + "]"@));
}

/// Appends the left side of an alternation, opened.
fn write_left(left: &Arc<Node>, out: &mut String)
    ensures
        final(out)@ == old(out)@ + ("<"@ + pattern_text(chain_view(**left)) + ">|<"@),
    decreases left, 2nat,
{
    out.append("<");
    left.write_text(out);
    out.append(">|<");
    assert(out@ =~= old(out)@ + ("<"@ + pattern_text(chain_view(**left)) + ">|<"@));
}

/// Appends the bounds of a range.
fn write_bounds(min: u32, max: Option<u32>, out: &mut String)
    ensures
        final(out)@ == old(out)@ + ("{"@ + decimal(min as nat) + (match max {
            Some(hi) => ","@ + decimal(hi as nat),
            None => Seq::empty(),
        }) + "}"@),
{
    out.append("{");
    push_decimal(out, min as usize);
    match max {
        Some(hi) => {
            out.append(",");
            push_decimal(out, hi as usize);
        },
        None => {},
    }
    out.append("}");
    assert(out@ =~= old(out)@ + ("{"@ + decimal(min as nat) + (match max {
        Some(hi) => ","@ + decimal(hi as nat),
        None => Seq::empty(),
    }) + "}"@));
}

impl NodeVal {
    /// This construct as text.
    pub fn to_owned_text(&self) -> (out: String)
        ensures
            out@ == pat_text(self@),
    {
        let mut out = String::new();
        self.write_text(&mut out);
        assert(Seq::<char>::empty() + pat_text(self@) =~= pat_text(self@));
        out
    }

    /// Appends the text of this construct.
    pub fn write_text(&self, out: &mut String)
        ensures
            final(out)@ == old(out)@ + pat_text(self@),
        decreases self, 0nat,
    {
        let ghost before = out@;
        proof {
            lemma_pat_text(self@);
        }
        match self {
            NodeVal::Poisoned => {
                out.append("!!poison!!");
            },
            NodeVal::Word(word) => {
                out.append("'");
                out.append(word.as_str());
                out.append("'");
                assert(out@ =~= before + ("'"@ + word@ + "'"@));
            },
            NodeVal::Any => {
                out.append(".");
            },
            NodeVal::ZeroOrMore { node, greedy } => {
                write_repeated(node, "*", *greedy, out);
            },
            NodeVal::OneOrMore { node, greedy } => {
                write_repeated(node, "+", *greedy, out);
            },
            NodeVal::Start => {
                out.append("^");
            },
            NodeVal::End => {
                out.append("$");
            },
            NodeVal::Optional(node) => {
                write_repeated(node, "?", true, out);
                assert(pattern_text(chain_view(**node)) + "?"@ + lazy_text(true) =~= pattern_text(
                    chain_view(**node),
                ) + "?"@);
            },
            NodeVal::Group { group, cfg } => {
                write_group(group, cfg, out);
            },
            NodeVal::GroupEnd { .. } => {
                out.append("(/)");
            },
            NodeVal::CharSet { set, inverted } => {
                write_set(set, *inverted, out);
            },
            NodeVal::Or { left, right } => {
                write_left(left, out);
                right.write_text(out);
                out.append(">");
                assert(out@ =~= before + ("<"@ + pattern_text(chain_view(**left)) + ">|<"@ + pattern_text(
                    chain_view(**right),
                ) + ">"@));
            },
            NodeVal::RepetitionRange { min, max, node } => {
                node.write_text(out);
                write_bounds(*min, *max, out);
                assert(out@ =~= before + (pattern_text(chain_view(**node)) + "{"@ + decimal(*min as nat) + (match *max {
                    Some(hi) => ","@ + decimal(hi as nat),
                    None => Seq::empty(),
                }) + "}"@));
            },
        }
    }
}

/// A parsed pattern as text.
pub open spec fn result_text(p: Seq<Pat>) -> Seq<char> {
    "ParseResult { "@ + pattern_text(p) + " }"@
}

impl ParseResult {
    /// The program as text, between `ParseResult { ` and ` }`.
    pub fn to_text(&self) -> (out: String)
        ensures
            out@ == result_text(self@),
    {
        let mut out = String::new();
        out.append("ParseResult { ");
        match &self.head {
            None => {},
            Some(head) => {
                head.write_text(&mut out);
            },
        }
        out.append(" }");
        assert(out@ =~= result_text(self@));
        out
    }
}

impl ParseError {
    /// What the error says.
    pub fn message(&self) -> (out: String)
        ensures
            out@ == error_text(*self),
    {
        let mut out = String::new();
        match self {
            ParseError::UnexpectedCharErr(ch) => {
                out.append("unexpected char '");
                out.push(*ch);
                out.append("'");
                assert(out@ =~= "unexpected char '"@ + seq![*ch] + "'"@);
            },
            ParseError::UnterminatedCharSet => out.append("unterminated character set"),
            ParseError::EmptyCaptureGroup => out.append("empty capture group"),
            ParseError::MissingCharacterToEscape => out.append("missing character to escape"),
            ParseError::MissingRightSideOfOr => out.append("missing right side of or"),
            ParseError::BadGroupConfig => out.append("bad group config"),
            ParseError::MissingRepetitionRangeMin => out.append("missing repetition range min"),
            ParseError::UnexpectedRepetitionRangeCh(ch) => {
                out.append("unexpected char '");
                out.push(*ch);
                out.append("' in repetition range");
                assert(out@ =~= "unexpected char '"@ + seq![*ch] + "' in repetition range"@);
            },
            ParseError::MissingLeftSideOfModifier => out.append("missing left side of modifier"),
            ParseError::UnexpectedEmptyParseNodeOption => out.append(
                "internal: unexpected unwrap of Option<Rc<RefCell<ParseNode>>>",
            ),
            ParseError::ParseGraphCycle => out.append("found reference cycle in parse graph"),
            ParseError::UnexpectedEndOfInput => out.append("found unexpected end of input"),
        }
        assert(out@ =~= error_text(*self));
        out
    }
}

impl<'str> ParseErrorWithContext<'str> {
    /// The error with its place in the pattern.
    pub fn to_text(&self) -> (out: String)
        ensures
            out@ == context_text(self.err, self.str@, self.cur as nat),
    {
        let mut out = self.err.message();
        out.append(" at :");
        push_decimal(&mut out, self.cur);
        out.append("\n");
        out.append(self.str);
        out.append("\n");
        let ghost before = out@;
        assert(before =~= error_text(self.err) + " at :"@ + decimal(self.cur as nat) + "\n"@ + self.str@ + "\n"@);
        let mut k: usize = 1;
        assert(out@ =~= before + spaces(0));
        while k < self.cur
            invariant
                1 <= k,
                k <= self.cur || (self.cur == 0 && k == 1),
                out@ == before + spaces(k - 1),
            decreases self.cur - k,
        {
            out.append(" ");
            assert(out@ =~= before + spaces(k as int));
            k += 1;
        }
        assert(spaces(k - 1) =~= spaces(self.cur - 1));
        out.append("^");
        assert(out@ =~= before + spaces(self.cur - 1) + "^"@);
        out
    }
}

} // verus!
