//! What a pattern's text means: the grammar, as functions from a sequence of
//! characters to the pattern it denotes or to the reason why it denotes none.
//!
//! Every function reads from an index `i` and gives back, beside its result,
//! the index behind what it read. An index counts the characters read so far;
//! a read at the end of the text still counts once, so that an error met there
//! points one past the end.

use super::model::digit_char;
use super::model::GroupKind;
use super::model::Pat;
use super::ParseError;
use crate::ordered::with_item;
use vstd::prelude::*;

verus! {

/// An error and the index at which it was met.
pub type Failure = (ParseError, int);

/// The characters with a meaning of their own in a pattern.
pub open spec fn is_special(c: char) -> bool {
    c == '(' || c == ')' || c == '{' || c == '}' || c == '[' || c == ']' || c == '|' || c == '\\'
        || c == '^' || c == '$' || c == '.' || c == '*' || c == '?' || c == '+'
}

/// The decimal digits.
pub open spec fn is_digit(c: char) -> bool {
    '0' <= c <= '9'
}

/// The number that a decimal digit stands for.
pub open spec fn digit_value(c: char) -> nat {
    (c as nat - '0' as nat) as nat
}

/// The character at `i`, if the text reaches that far.
pub open spec fn peek_at(s: Seq<char>, i: int) -> Option<char> {
    if 0 <= i < s.len() {
        Some(s[i])
    } else {
        None
    }
}

/// The index after one more read at `i`.
pub open spec fn bump(s: Seq<char>, i: int) -> int {
    if i < s.len() {
        i + 1
    } else {
        s.len() as int + 1
    }
}

/// How many reads can still advance from `i`: the measure by which parsing
/// ends.
pub open spec fn left(s: Seq<char>, i: int) -> nat {
    if 0 <= i <= s.len() {
        (s.len() - i + 1) as nat
    } else {
        0
    }
}

/// The character behind a backslash, read at `i`: it must be a special one.
pub open spec fn escaped_at(s: Seq<char>, i: int) -> Result<(char, int), Failure> {
    match peek_at(s, i) {
        None => Err((ParseError::MissingCharacterToEscape, bump(s, i))),
        Some(c) => if is_special(c) {
            Ok((c, i + 1))
        } else {
            Err((ParseError::UnexpectedCharErr(c), i + 1))
        },
    }
}

/// A run of literal characters from `i` on, after `acc`: it ends before the
/// first special character that no backslash precedes.
pub open spec fn word_from(s: Seq<char>, i: int, acc: Seq<char>) -> Result<(Seq<char>, int), Failure>
    decreases left(s, i),
{
    match peek_at(s, i) {
        None => Ok((acc, i)),
        Some(c) => if c == '\\' {
            match escaped_at(s, i + 1) {
                Ok((e, j)) => word_from(s, j, acc.push(e)),
                Err(f) => Err(f),
            }
        } else if is_special(c) {
            Ok((acc, i))
        } else {
            word_from(s, i + 1, acc.push(c))
        },
    }
}

/// The members of a character class from `i` on, after `acc`, up to the
/// closing `]`.
pub open spec fn class_from(s: Seq<char>, i: int, acc: Seq<char>) -> Result<(Seq<char>, int), Failure>
    decreases left(s, i),
{
    match peek_at(s, i) {
        None => Err((ParseError::UnterminatedCharSet, bump(s, i))),
        Some(c) => if c == '\\' {
            match escaped_at(s, i + 1) {
                Ok((e, j)) => class_from(s, j, with_item(acc, e)),
                Err(f) => Err(f),
            }
        } else if c == ']' {
            Ok((acc, i + 1))
        } else {
            class_from(s, i + 1, with_item(acc, c))
        },
    }
}

/// A character class, read behind its `[`.
pub open spec fn class_at(s: Seq<char>, i: int) -> Result<(Pat, int), Failure> {
    let inverted = peek_at(s, i) == Some('^');
    match class_from(s, if inverted { i + 1 } else { i }, Seq::empty()) {
        Ok((members, j)) => Ok((Pat::CharSet { members, inverted }, j)),
        Err(f) => Err(f),
    }
}

/// The name of a group from `i` on, after `acc`, up to the closing `>`. A
/// name that the end of the text cuts short is given as it is: the group's
/// body is then missing.
pub open spec fn name_from(s: Seq<char>, i: int, acc: Seq<char>) -> Result<(Seq<char>, int), Failure>
    decreases left(s, i),
{
    match peek_at(s, i) {
        None => Ok((acc, bump(s, i))),
        Some(c) => if c == '\\' {
            match escaped_at(s, i + 1) {
                Ok((e, j)) => name_from(s, j, acc.push(e)),
                Err(f) => Err(f),
            }
        } else if c == '>' {
            Ok((acc, i + 1))
        } else {
            name_from(s, i + 1, acc.push(c))
        },
    }
}

/// What stands between `(` and the group's body, read at `i`: `?:`, `?<name>`
/// or nothing.
pub open spec fn prefix_at(s: Seq<char>, i: int) -> Result<(GroupKind, int), Failure> {
    if peek_at(s, i) == Some('?') {
        match peek_at(s, i + 1) {
            Some(':') => Ok((GroupKind::NonCapturing, i + 2)),
            Some('<') => match name_from(s, i + 2, Seq::empty()) {
                Ok((name, j)) => Ok((GroupKind::Named(name), j)),
                Err(f) => Err(f),
            },
            _ => Err((ParseError::BadGroupConfig, bump(s, i + 1))),
        }
    } else {
        Ok((GroupKind::Unnamed, i))
    }
}

/// The number `n` with the digit `c` behind it, if that is a `u32`.
pub open spec fn with_digit(n: Option<u32>, c: char) -> Option<u32> {
    let v = (match n {
        Some(v) => v as nat,
        None => 0,
    }) * 10 + digit_value(c);
    if v <= u32::MAX {
        Some(v as u32)
    } else {
        None
    }
}

/// The bounds of a repetition once its text has ended at `j`. A minimum must
/// be there, and a maximum may not lie below it.
pub open spec fn bounds(min: Option<u32>, max: Option<u32>, j: int) -> Result<((u32, Option<u32>), int), Failure> {
    match min {
        None => Err((ParseError::MissingRepetitionRangeMin, j)),
        Some(lo) => match max {
            Some(hi) => if hi < lo {
                Err((ParseError::UnexpectedRepetitionRangeCh(digit_char((hi % 10) as nat)), j))
            } else {
                Ok(((lo, max), j))
            },
            None => Ok(((lo, None), j)),
        },
    }
}

/// The error for a repetition whose text breaks off at the end of the
/// pattern, met at `j`.
pub open spec fn cut_off(min: Option<u32>, j: int) -> Result<((u32, Option<u32>), int), Failure> {
    match min {
        None => Err((ParseError::MissingRepetitionRangeMin, j)),
        Some(_) => Err((ParseError::UnexpectedEndOfInput, j)),
    }
}

/// The maximum of a repetition, read behind the comma.
pub open spec fn range_max_from(s: Seq<char>, i: int, min: Option<u32>, max: Option<u32>) -> Result<
    ((u32, Option<u32>), int),
    Failure,
>
    decreases left(s, i),
{
    match peek_at(s, i) {
        None => cut_off(min, bump(s, i)),
        Some(c) => if is_digit(c) {
            match with_digit(max, c) {
                Some(v) => range_max_from(s, i + 1, min, Some(v)),
                None => Err((ParseError::UnexpectedRepetitionRangeCh(c), i + 1)),
            }
        } else if c == '}' {
            bounds(min, max, i + 1)
        } else {
            Err((ParseError::UnexpectedRepetitionRangeCh(c), i + 1))
        },
    }
}

/// The bounds of a repetition, read behind its `{`: `{m}`, `{m,}` or `{m,n}`.
pub open spec fn range_from(s: Seq<char>, i: int, min: Option<u32>) -> Result<((u32, Option<u32>), int), Failure>
    decreases left(s, i),
{
    match peek_at(s, i) {
        None => cut_off(min, bump(s, i)),
        Some(c) => if is_digit(c) {
            match with_digit(min, c) {
                Some(v) => range_from(s, i + 1, Some(v)),
                None => Err((ParseError::UnexpectedRepetitionRangeCh(c), i + 1)),
            }
        } else if c == '}' {
            bounds(min, min, i + 1)
        } else if c == ',' {
            range_max_from(s, i + 1, min, None)
        } else {
            Err((ParseError::UnexpectedRepetitionRangeCh(c), i + 1))
        },
    }
}

/// A quantifier, as it stands behind what it repeats.
#[derive(Debug, Clone, Copy)]
pub enum Modifier {
    ZeroOrMore { greedy: bool },
    OneOrMore { greedy: bool },
    Optional,
    RepetitionRange { min: u32, max: Option<u32> },
}

impl Modifier {
    /// The quantifier applied to `body`.
    pub open spec fn over(self, body: Seq<Pat>) -> Pat {
        match self {
            Modifier::ZeroOrMore { greedy } => Pat::ZeroOrMore { body, greedy },
            Modifier::OneOrMore { greedy } => Pat::OneOrMore { body, greedy },
            Modifier::Optional => Pat::Optional(body),
            Modifier::RepetitionRange { min, max } => Pat::RepetitionRange { min, max, body },
        }
    }
}

/// The constructs read so far with a quantifier applied to the last of them.
/// Of a word of several characters only the last character is repeated; the
/// rest of the word stays before it. Nothing can be repeated where nothing was
/// read.
pub open spec fn decorated(acc: Seq<Pat>, m: Modifier) -> Option<Seq<Pat>> {
    if acc.len() == 0 {
        None
    } else {
        let last = acc.last();
        if last is Word && last->Word_0.len() > 1 {
            let w = last->Word_0;
            Some(acc.drop_last().push(Pat::Word(w.drop_last())).push(m.over(seq![Pat::Word(seq![w.last()])])))
        } else {
            Some(acc.drop_last().push(m.over(seq![last])))
        }
    }
}

/// Whether a lazy mark `?` stands at `i`, and the index behind it.
pub open spec fn greediness_at(s: Seq<char>, i: int) -> (bool, int) {
    if peek_at(s, i) == Some('?') {
        (false, i + 1)
    } else {
        (true, i)
    }
}

/// The constructs from `i` on, after `acc`, up to the end of the text or to
/// the character `until`, which is left unread. `seen` capturing groups were
/// opened before `i`; the result holds how many were once the constructs are
/// read.
///
/// An alternation takes all that was read before it in this call as its left
/// side, and all up to the next `)` or the end as its right side.
///
/// Every construct takes at least one character, so reading always goes on
/// behind it; that it does is what `laws::lemma_parse_from_reads_on` shows.
pub open spec fn parse_from(s: Seq<char>, i: int, until: Option<char>, acc: Seq<Pat>, seen: nat) -> Result<
    (Seq<Pat>, int, nat),
    Failure,
>
    decreases left(s, i), 1nat,
{
    match peek_at(s, i) {
        None => Ok((acc, i, seen)),
        Some(c) => if until == Some(c) {
            Ok((acc, i, seen))
        } else if c == '{' {
            match range_from(s, i + 1, None) {
                Err(f) => Err(f),
                Ok(((min, max), j)) => match decorated(acc, Modifier::RepetitionRange { min, max }) {
                    None => Err((ParseError::MissingLeftSideOfModifier, j)),
                    Some(acc2) => if i < j {
                        parse_from(s, j, until, acc2, seen)
                    } else {
                        Ok((acc2, j, seen))
                    },
                },
            }
        } else if c == '|' {
            if acc.len() == 0 {
                Err((ParseError::UnexpectedCharErr(c), i + 1))
            } else {
                match parse_from(s, i + 1, Some(')'), Seq::empty(), seen) {
                    Err(f) => Err(f),
                    Ok((right, j, counted)) => if right.len() == 0 {
                        Err((ParseError::MissingRightSideOfOr, j))
                    } else if i < j {
                        parse_from(s, j, until, seq![Pat::Or { left: acc, right }], counted)
                    } else {
                        Ok((seq![Pat::Or { left: acc, right }], j, counted))
                    },
                }
            }
        } else if c == '[' {
            match class_at(s, i + 1) {
                Err(f) => Err(f),
                Ok((set, j)) => if i < j {
                    parse_from(s, j, until, acc.push(set), seen)
                } else {
                    Ok((acc.push(set), j, seen))
                },
            }
        } else if c == '.' {
            parse_from(s, i + 1, until, acc.push(Pat::Any), seen)
        } else if c == '*' || c == '+' {
            let (greedy, j) = greediness_at(s, i + 1);
            let m = if c == '*' {
                Modifier::ZeroOrMore { greedy }
            } else {
                Modifier::OneOrMore { greedy }
            };
            match decorated(acc, m) {
                None => Err((ParseError::MissingLeftSideOfModifier, j)),
                Some(acc2) => parse_from(s, j, until, acc2, seen),
            }
        } else if c == '?' {
            match decorated(acc, Modifier::Optional) {
                None => Err((ParseError::MissingLeftSideOfModifier, i + 1)),
                Some(acc2) => parse_from(s, i + 1, until, acc2, seen),
            }
        } else if c == '^' {
            parse_from(s, i + 1, until, acc.push(Pat::Start), seen)
        } else if c == '$' {
            parse_from(s, i + 1, until, acc.push(Pat::End), seen)
        } else if c == '(' {
            match group_at(s, i, seen) {
                Err(f) => Err(f),
                Ok((group, j, counted)) => if i < j {
                    parse_from(s, j, until, acc.push(group), counted)
                } else {
                    Ok((acc.push(group), j, counted))
                },
            }
        } else if c == ')' || c == '}' || c == ']' {
            Err((ParseError::UnexpectedCharErr(c), i + 1))
        } else {
            match word_from(s, i, Seq::empty()) {
                Err(f) => Err(f),
                Ok((word, j)) => if i < j {
                    parse_from(s, j, until, acc.push(Pat::Word(word)), seen)
                } else {
                    Ok((acc.push(Pat::Word(word)), j, seen))
                },
            }
        },
    }
}

/// The kind of a group with the prefix `prefix`, where `seen` capturing groups
/// were opened before it: a group without a name gets its position.
pub open spec fn kind_of(prefix: GroupKind, seen: nat) -> GroupKind {
    match prefix {
        GroupKind::Unnamed => GroupKind::Numbered(seen + 1),
        _ => prefix,
    }
}

/// The number of capturing groups opened once a group with the prefix
/// `prefix` has been opened after `seen` of them.
pub open spec fn counted(prefix: GroupKind, seen: nat) -> nat {
    match prefix {
        GroupKind::NonCapturing => seen,
        _ => seen + 1,
    }
}

/// A group, read at its `(`, where `seen` capturing groups were opened before
/// it: the prefix, a body that is not empty, and the closing `)`.
pub open spec fn group_at(s: Seq<char>, i: int, seen: nat) -> Result<(Pat, int, nat), Failure>
    decreases left(s, i), 0nat,
{
    match prefix_at(s, i + 1) {
        Err(f) => Err(f),
        Ok((prefix, j)) => if 0 <= i < s.len() && i < j {
            match parse_from(s, j, Some(')'), Seq::empty(), counted(prefix, seen)) {
                Err(f) => Err(f),
                Ok((body, k, total)) => if body.len() == 0 {
                    Err((ParseError::EmptyCaptureGroup, k))
                } else if peek_at(s, k) is None {
                    Err((ParseError::UnexpectedEndOfInput, bump(s, k)))
                } else {
                    Ok((Pat::Group { body, kind: kind_of(prefix, seen) }, k + 1, total))
                },
            }
        } else {
            Err((ParseError::BadGroupConfig, j))
        },
    }
}

/// The pattern that a text denotes, or the error that refuses it.
pub open spec fn parse_pattern(s: Seq<char>) -> Result<Seq<Pat>, Failure> {
    match parse_from(s, 0, None, Seq::empty(), 0) {
        Ok((pattern, _, _)) => Ok(pattern),
        Err(f) => Err(f),
    }
}

} // verus!
