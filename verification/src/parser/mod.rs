//! Patterns: their abstract form, the parser that reads them from text, and
//! the program that the executor runs.

pub mod display;
pub mod grammar;
pub mod laws;
pub mod model;
pub mod node;
pub mod parse_node;
pub mod reader;

pub use node::GroupConfig;
pub use node::Node;
pub use node::NodeVal;
pub use parse_node::ParseNode;
pub use parse_node::ParseNodeVal;
use grammar::parse_pattern;
use laws::lemma_parsed_well_formed;
use laws::well_formed;
use model::Pat;
use node::link_view;
use node::share_link;
use reader::ParserImpl;
use std::sync::Arc;
use crate::text::byte_offset;
use vstd::prelude::*;

verus! {

/// Why a pattern was refused.
#[derive(Debug, Clone, Copy, PartialEq, Eq, Structural)]
pub enum ParseError {
    UnexpectedCharErr(char),
    UnterminatedCharSet,
    EmptyCaptureGroup,
    MissingCharacterToEscape,
    MissingRightSideOfOr,
    BadGroupConfig,
    MissingRepetitionRangeMin,
    UnexpectedRepetitionRangeCh(char),
    MissingLeftSideOfModifier,
    UnexpectedEmptyParseNodeOption,
    ParseGraphCycle,
    UnexpectedEndOfInput,
}

/// An error, the pattern in which it was met, and the place at which it was
/// met: the offset in bytes behind what had been read.
#[derive(Debug)]
pub struct ParseErrorWithContext<'str> {
    pub err: ParseError,
    pub str: &'str str,
    pub cur: usize,
}

/// The place in the bytes of a pattern that an index of its characters stands
/// for: the byte offset of the character with that index, or, for the index
/// that a read at the end of the pattern leaves, one past the pattern's length
/// in bytes, as far as that is a `usize`.
pub open spec fn error_place(s: Seq<char>, j: int) -> int {
    if 0 <= j <= s.len() {
        byte_offset(s, j)
    } else if byte_offset(s, s.len() as int) < usize::MAX {
        byte_offset(s, s.len() as int) + 1
    } else {
        byte_offset(s, s.len() as int)
    }
}

/// The place that an index stands for, looked up in the byte offsets of the
/// pattern's characters.
pub fn place_of(offsets: &Vec<usize>, index: usize) -> (place: usize)
    requires
        offsets@.len() >= 1,
    ensures
        index < offsets@.len() ==> place == offsets@[index as int],
        index >= offsets@.len() ==> place == (if offsets@.last() < usize::MAX {
            offsets@.last() + 1
        } else {
            offsets@.last() as int
        }),
{
    if index < offsets.len() {
        offsets[index]
    } else {
        let last = offsets[offsets.len() - 1];
        if last < usize::MAX {
            last + 1
        } else {
            last
        }
    }
}

/// The parser of patterns.
pub struct Parser {}

/// A parsed pattern as a program: the first node, or nothing for the empty
/// pattern.
#[derive(Debug)]
pub struct ParseResult {
    pub head: Option<Arc<Node>>,
}

impl View for ParseResult {
    type V = Seq<Pat>;

    open spec fn view(&self) -> Seq<Pat> {
        link_view(self.head)
    }
}

impl Clone for ParseResult {
    fn clone(&self) -> (r: Self)
        ensures
            r == *self,
    {
        ParseResult { head: share_link(&self.head) }
    }
}

impl Default for ParseResult {
    fn default() -> (r: Self)
        ensures
            r@ == Seq::<Pat>::empty(),
    {
        ParseResult { head: None }
    }
}

impl Parser {
    pub fn new() -> (p: Self) {
        Parser {  }
    }

    /// Parses a pattern: the program for the pattern that the text denotes, or
    /// the error that the grammar gives, with the place at which it was met.
    pub fn parse_str<'str>(self: &Self, input: &'str str) -> (r: Result<ParseResult, ParseErrorWithContext<'str>>)
        ensures
            match parse_pattern(input@) {
                Ok(p) => r is Ok && r.unwrap()@ == p,
                Err((e, j)) => r is Err && r.unwrap_err().err == e && r.unwrap_err().cur == error_place(input@, j)
                    && r.unwrap_err().str@ == input@,
            },
            r matches Ok(parsed) ==> well_formed(parsed@),
    {
        proof {
            lemma_parsed_well_formed(input@);
        }
        let chars = crate::text::chars_of(input);
        let offsets = crate::text::offsets_of(input, &chars);
        let mut parser = ParserImpl { chars, index: 0, groups: 0 };
        match parser.parse(None) {
            Ok(None) => Ok(ParseResult { head: None }),
            Ok(Some(head)) => match Node::try_from(*head) {
                Ok(node) => Ok(ParseResult { head: Some(Arc::new(node)) }),
                Err(err) => Err(ParseErrorWithContext { err, str: input, cur: place_of(&offsets, parser.index) }),
            },
            Err(err) => Err(ParseErrorWithContext { err, str: input, cur: place_of(&offsets, parser.index) }),
        }
    }
}

} // verus!
